use maps::Biome;
use maps::BiomeControl;
use maps::TileChance;
use maps::TileKind;
use maps::TileType;
use maps::random_biome;

#[test]
fn the_catalog_holds_the_five_biomes() {
    let cave = Biome::new(String::from("Cave"));
    assert_eq!(cave.tile_chance, TileChance { floor: 30, wall: 50, water: 20, sand: 0, tree: 0 });
    assert!(cave.biome_control.outer_wall);
    assert!(cave.biome_control.water_edges);
    assert!(!cave.biome_control.sparse_trees);

    let ocean = Biome::new(String::from("Ocean"));
    assert_eq!(ocean.tile_chance, TileChance { floor: 0, wall: 5, water: 70, sand: 15, tree: 10 });
    assert!(!ocean.biome_control.outer_wall);
    assert!(ocean.biome_control.sparse_trees);

    let underlake = Biome::new(String::from("Underlake"));
    assert_eq!(
        underlake.tile_chance,
        TileChance { floor: 20, wall: 20, water: 60, sand: 0, tree: 0 }
    );

    let desert = Biome::new(String::from("Desert"));
    assert_eq!(desert.tile_chance, TileChance { floor: 0, wall: 20, water: 15, sand: 50, tree: 15 });
    assert!(!desert.biome_control.outer_wall);

    let forest = Biome::new(String::from("Forest"));
    assert_eq!(forest.tile_chance, TileChance { floor: 0, wall: 20, water: 20, sand: 20, tree: 40 });
    assert!(forest.biome_control.outer_wall);
}

#[test]
fn unknown_names_fall_back_to_the_uniform_profile() {
    let b = Biome::new(String::from("Moon"));
    assert_eq!(b.tile_chance, TileChance { floor: 33, wall: 33, water: 33, sand: 0, tree: 0 });
    // the fallback switches every refinement pass on
    assert_eq!(
        b.biome_control,
        BiomeControl {
            water_edges: true,
            outer_wall: true,
            sparse_trees: true,
            roads: true,
            exit_roads: false,
            exits: false,
        }
    );
    assert_eq!(b.default_floor(), TileKind::Floor);
    assert_eq!(b.default_wall(), TileKind::Wall);
}

#[test]
fn default_types_follow_the_biome() {
    assert_eq!(Biome::new(String::from("Cave")).default_floor(), TileKind::Floor);
    assert_eq!(Biome::new(String::from("Ocean")).default_floor(), TileKind::Sand);
    assert_eq!(Biome::new(String::from("Underlake")).default_floor(), TileKind::Floor);
    assert_eq!(Biome::new(String::from("Desert")).default_floor(), TileKind::Sand);
    assert_eq!(Biome::new(String::from("Forest")).default_floor(), TileKind::Sand);
    assert_eq!(Biome::new(String::from("Forest")).default_wall(), TileKind::Tree);
    assert_eq!(Biome::new(String::from("Cave")).default_wall(), TileKind::Wall);
}

#[test]
fn random_biome_names_come_from_the_catalog() {
    for _ in 0..50 {
        let name = random_biome();
        assert!(
            ["Cave", "Ocean", "Underlake", "Desert", "Forest"].contains(&name.as_str()),
            "unexpected biome {name}"
        );
    }
}

#[test]
fn the_code_table_matches_the_storage_format() {
    let t = TileType::standard();
    assert_eq!(t.floor, '.');
    assert_eq!(t.wall, '#');
    assert_eq!(t.water, '~');
    assert_eq!(t.sand, ',');
    assert_eq!(t.tree, 't');
    assert_eq!(t.road, '.');
    assert_eq!(t.exit, '/');
}

#[test]
fn codes_round_trip_except_the_road() {
    for k in [TileKind::Floor, TileKind::Wall, TileKind::Water, TileKind::Sand, TileKind::Tree,
        TileKind::Exit, TileKind::Spawn] {
        assert_eq!(TileKind::from_char(k.to_char()), Some(k));
    }
    // the road shares the floor code on purpose
    assert_eq!(TileKind::Road.to_char(), '.');
    assert_eq!(TileKind::from_char(TileKind::Road.to_char()), Some(TileKind::Floor));
    assert_eq!(TileKind::from_char('Z'), None);
}
