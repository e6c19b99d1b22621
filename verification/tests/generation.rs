use maps::Coord;
use maps::GenError;
use maps::Grid;
use maps::Tile;
use maps::TileKind;

#[test]
fn generated_grid_covers_every_coordinate() {
    let g = Grid::new_biome(20, 20, String::from("Cave")).unwrap();
    assert_eq!(g.size_x, 20);
    assert_eq!(g.size_y, 20);
    assert_eq!(g.tiles.len(), 400);
    for y in 0..20usize {
        for x in 0..20usize {
            let t = &g.tiles[y * 20 + x];
            assert_eq!(t.x, x);
            assert_eq!(t.y, y);
        }
    }
    let mut keys: Vec<String> = g.tiles.iter().map(|t| t.get_tile_key()).collect();
    keys.sort();
    keys.dedup();
    assert_eq!(keys.len(), 400);
}

#[test]
fn degenerate_sizes_are_rejected() {
    assert_eq!(Grid::new_biome(0, 10, String::from("Cave")), Err(GenError::InvalidSize));
    assert_eq!(Grid::new_biome(10, 0, String::from("Cave")), Err(GenError::InvalidSize));
    assert_eq!(Grid::new_biome(2000, 10, String::from("Cave")), Err(GenError::InvalidSize));
}

#[test]
fn border_walling_is_idempotent() {
    let g = Grid::new_biome(16, 12, String::from("Ocean")).unwrap();
    let biome = maps::Biome::new(String::from("Cave"));
    let once = g.add_wall_borders(&biome);
    let twice = once.add_wall_borders(&biome);
    assert_eq!(once, twice);
}

#[test]
fn cave_border_is_walled() {
    let g = Grid::new_biome(15, 17, String::from("Cave")).unwrap();
    for t in &g.tiles {
        if t.x == 0 || t.y == 0 || t.x == 14 || t.y == 16 {
            assert_eq!(t.kind, TileKind::Wall);
        }
    }
}

#[test]
fn neighbor_sets_are_symmetric_away_from_the_border() {
    let g = Grid::new_biome(12, 12, String::from("Underlake")).unwrap();
    for a in &g.tiles {
        for c in &a.neighbors {
            let b = &g.tiles[c.y * 12 + c.x];
            let bx = b.x as i64;
            let by = b.y as i64;
            if bx >= 2 && by >= 2 && bx <= 9 && by <= 9 {
                assert!(b.neighbors.contains(&Coord { x: a.x, y: a.y }));
            }
        }
    }
}

#[test]
fn neighbor_sets_are_empty_at_the_margin() {
    let g = Grid::new_biome(10, 10, String::from("Cave")).unwrap();
    for t in &g.tiles {
        let near_border = t.x <= 1 || t.y <= 1 || t.x >= 8 || t.y >= 8;
        if near_border {
            assert!(t.neighbors.is_empty());
        } else {
            assert_eq!(t.neighbors.len(), 8);
            // the fixed order: the four sides, then the four diagonals
            assert_eq!(t.neighbors[0], Coord { x: t.x, y: t.y + 1 });
            assert_eq!(t.neighbors[1], Coord { x: t.x, y: t.y - 1 });
            assert_eq!(t.neighbors[2], Coord { x: t.x + 1, y: t.y });
            assert_eq!(t.neighbors[3], Coord { x: t.x - 1, y: t.y });
        }
    }
}

#[test]
fn ocean_skips_the_outer_wall() {
    let biome = maps::Biome::new(String::from("Ocean"));
    assert!(!biome.biome_control.outer_wall);
    let g = Grid::new_biome(50, 50, String::from("Ocean")).unwrap();
    // had the border pass run, every one of the 196 border tiles would be
    // the default wall; random seeding never walls them all
    let walled_border = g
        .tiles
        .iter()
        .filter(|t| t.x == 0 || t.y == 0 || t.x == 49 || t.y == 49)
        .all(|t| t.kind == TileKind::Wall);
    assert!(!walled_border);
}

#[test]
fn generated_tiles_use_only_seeded_types() {
    let g = Grid::new_biome(30, 30, String::from("Forest")).unwrap();
    for t in &g.tiles {
        assert!(matches!(
            t.kind,
            TileKind::Floor | TileKind::Wall | TileKind::Water | TileKind::Sand | TileKind::Tree
        ));
    }
}

#[test]
fn empty_tileset_is_all_floor() {
    let g = Grid::empty_tileset(5, 4);
    assert_eq!(g.tiles.len(), 20);
    for t in &g.tiles {
        assert_eq!(t.kind, TileKind::Floor);
        assert!(t.neighbors.is_empty());
    }
}

#[test]
fn first_seed_wins_distance_ties() {
    let g = Grid::empty_tileset(3, 1);
    let seeds = vec![
        Tile::new(0, 0, TileKind::Wall, Vec::new()),
        Tile::new(2, 0, TileKind::Water, Vec::new()),
    ];
    let assigned = g.tiles_to_voronoi(&seeds);
    assert_eq!(assigned.tiles[0].kind, TileKind::Wall);
    // (1,0) is one step from both seeds; the first-emitted seed wins
    assert_eq!(assigned.tiles[1].kind, TileKind::Wall);
    assert_eq!(assigned.tiles[2].kind, TileKind::Water);
}

#[test]
fn seed_list_ends_with_the_center_floor_seed() {
    let biome = maps::Biome::new(String::from("Ocean"));
    let seeds = Grid::create_voronoi_points(50, 50, &biome, 120);
    let last = seeds.last().unwrap();
    assert_eq!(last.x, 25);
    assert_eq!(last.y, 25);
    assert_eq!(last.kind, TileKind::Sand);
    // the shares: 0% floor, 5% wall, 70% water, 15% sand, 10% tree of 120
    assert_eq!(seeds.len(), 0 + 6 + 84 + 18 + 12 + 1);
}
