use rustgame::geom::Vec as Pos;
use rustgame::level::{Image, LevelError};
use rustgame::tile_map::{GroundKind, TerrainKind, Tile};

fn image(width: u32, height: u32, px: &[(u8, u8, u8, u8)]) -> Image {
    let mut rgba = Vec::new();
    for p in px {
        rgba.extend_from_slice(&[p.0, p.1, p.2, p.3]);
    }
    Image { width, height, rgba }
}

const GRASS: (u8, u8, u8, u8) = (0, 255, 0, 255);
const WATER: (u8, u8, u8, u8) = (0, 0, 255, 255);
const TREE: (u8, u8, u8, u8) = (0, 127, 0, 255);
const ANCHOR: (u8, u8, u8, u8) = (0, 0, 0, 255);
const CLEAR: (u8, u8, u8, u8) = (0, 0, 0, 0);

#[test]
fn level_from_pixels() {
    // Row after row: the anchor at (1, 1) reads as the tree at (2, 2).
    let img = image(
        3,
        3,
        &[GRASS, WATER, CLEAR, CLEAR, ANCHOR, GRASS, CLEAR, CLEAR, TREE],
    );
    let map = img.build_level().unwrap();
    let grass = Tile { ground: Some(GroundKind::Grass), terrain: None, roof: None };
    let water = Tile { ground: Some(GroundKind::Water), terrain: None, roof: None };
    let tree = Tile { ground: Some(GroundKind::Grass), terrain: Some(TerrainKind::Tree), roof: None };
    assert_eq!(map.get(Pos::new(-1, -1)), grass);
    assert_eq!(map.get(Pos::new(0, -1)), water);
    assert_eq!(map.get(Pos::new(0, 0)), tree);
    assert_eq!(map.get(Pos::new(1, 0)), grass);
    assert_eq!(map.get(Pos::new(1, 1)), tree);
    assert_eq!(map.get(Pos::new(-1, 0)), Tile::default());
    let mut coords = map.chunk_coords();
    coords.sort();
    assert_eq!(coords, vec![(-1, -1), (0, -1), (0, 0)]);
}

#[test]
fn level_errors() {
    assert_eq!(image(2, 1, &[GRASS, WATER]).build_level().err(), Some(LevelError::NoOrigin));
    assert_eq!(image(2, 1, &[GRASS]).build_level().err(), Some(LevelError::BadSize));
    assert_eq!(
        image(2, 1, &[ANCHOR, (9, 9, 9, 255)]).build_level().err(),
        Some(LevelError::UnknownColor(9, 9, 9, 255))
    );
}
