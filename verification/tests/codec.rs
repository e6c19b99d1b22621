use maps::CodecError;
use maps::Grid;
use maps::Tile;
use maps::TileKind;

#[test]
fn saved_grids_load_back_unchanged() {
    let g = Grid::new_biome(25, 18, String::from("Forest")).unwrap();
    let bytes = g.to_bytes(false);
    let back = Grid::from_bytes(&bytes, false).unwrap();
    assert_eq!(g, back);
}

#[test]
fn compressed_grids_load_back_unchanged() {
    let g = Grid::new_biome(30, 30, String::from("Desert")).unwrap();
    let bytes = g.to_bytes(true);
    let back = Grid::from_bytes(&bytes, true).unwrap();
    assert_eq!(g, back);
}

#[test]
fn compression_round_trips_and_shrinks_repetition() {
    let data: Vec<u8> = std::iter::repeat(b"abcabc".to_vec()).take(200).flatten().collect();
    let packed = Grid::compress(&data);
    assert_ne!(packed, data);
    assert!(packed.len() < data.len());
    let unpacked = Grid::decompress(&packed).unwrap();
    assert_eq!(unpacked, data);
}

#[test]
fn garbage_is_not_valid_compressed_data() {
    assert!(Grid::decompress(b"not a gzip stream").is_none());
    assert_eq!(Grid::from_bytes(b"not a gzip stream", true), Err(CodecError::Decompress));
}

#[test]
fn the_stored_layout_is_one_flat_mapping() {
    let g = Grid {
        size_x: 1,
        size_y: 1,
        tiles: vec![Tile::new(0, 0, TileKind::Floor, Vec::new())],
        default_floor: TileKind::Floor,
        default_wall: TileKind::Wall,
    };
    let bytes = g.to_bytes(false);
    let text = String::from_utf8(bytes).unwrap();
    let mut expected = String::from("{\"mapsize\":{\"x\":1,\"y\":1,\"c\":\"$\",\"neighbors\":[]},");
    expected.push_str("\"default_floor\":{\"x\":1,\"y\":1,\"c\":\".\",\"neighbors\":[]},");
    expected.push_str("\"default_wall\":{\"x\":1,\"y\":1,\"c\":\"#\",\"neighbors\":[]},");
    expected.push_str("\"0x0\":{\"x\":0,\"y\":0,\"c\":\".\",\"neighbors\":[]}}");
    assert_eq!(text, expected);
}

#[test]
fn neighbor_keys_are_stored_as_string_arrays() {
    let g = Grid::new_biome(8, 8, String::from("Cave")).unwrap();
    let text = String::from_utf8(g.to_bytes(false)).unwrap();
    // the center tile lists its right-hand neighbor as a key string
    assert!(text.contains("\"neighbors\":[\"3x4\","));
    let back = Grid::from_bytes(text.as_bytes(), false).unwrap();
    assert_eq!(g, back);
}

#[test]
fn malformed_streams_are_rejected() {
    assert_eq!(Grid::from_bytes(b"", false), Err(CodecError::Parse));
    assert_eq!(Grid::from_bytes(b"{}", false), Err(CodecError::Parse));
    let g = Grid::new_biome(6, 6, String::from("Cave")).unwrap();
    let mut bytes = g.to_bytes(false);
    bytes.pop();
    assert_eq!(Grid::from_bytes(&bytes, false), Err(CodecError::Parse));
    bytes.clear();
    assert_eq!(Grid::from_bytes(&bytes, false), Err(CodecError::Parse));
}

#[test]
fn roads_are_stored_with_the_floor_code() {
    let mut tiles = Vec::new();
    for y in 0..3usize {
        for x in 0..3usize {
            tiles.push(Tile::new(x, y, TileKind::Road, Vec::new()));
        }
    }
    let g = Grid {
        size_x: 3,
        size_y: 3,
        tiles,
        default_floor: TileKind::Floor,
        default_wall: TileKind::Wall,
    };
    let back = Grid::from_bytes(&g.to_bytes(false), false).unwrap();
    for t in &back.tiles {
        assert_eq!(t.kind, TileKind::Floor);
    }
}
