use rustgame::codec::{client_id_frame, decode_frame, encode_frame, encode_u64_le, frame_len};
use rustgame::geom::Vec as Pos;
use rustgame::inventory::{Inventory, Item, ItemKind};
use rustgame::protocol::ClientId;
use rustgame::tile_map::{Chunk, GroundKind, TerrainKind, Tile, TileMap};

#[test]
fn tile_map_round_trip() {
    let mut m = TileMap::new();
    let water = Tile { ground: Some(GroundKind::Water), terrain: None, roof: None };
    let tree = Tile { ground: Some(GroundKind::Grass), terrain: Some(TerrainKind::Tree), roof: None };
    m.set(Pos::new(-1, -33), water);
    assert_eq!(m.get(Pos::new(-1, -33)), water);
    assert_eq!(m.chunk_coords(), vec![(-1, -2)]);
    let before = m.chunk_tiles(-1, -2).unwrap();
    m.set(Pos::new(40, 5), tree);
    assert_eq!(m.get(Pos::new(40, 5)), tree);
    assert_eq!(m.chunk_tiles(-1, -2).unwrap(), before);
    assert_eq!(m.get(Pos::new(-1, -33)), water);
    assert_eq!(m.get(Pos::new(0, 0)), Tile::default());
    assert_eq!(m.get(Pos::new(-2, -33)), Tile::default());
    assert_eq!(before[31 * 32 + 31], water);
}

#[test]
fn tile_map_set_chunk() {
    let mut m = TileMap::new();
    let mut c = Chunk::new();
    let rock = Tile { ground: Some(GroundKind::Rock), terrain: Some(TerrainKind::Cliff), roof: None };
    c.tiles[3 * 32 + 4] = rock;
    m.set_chunk(1, -1, c);
    assert_eq!(m.get(Pos::new(35, -28)), rock);
    assert_eq!(m.get(Pos::new(35, -27)), Tile::default());
}

#[test]
fn tile_is_free() {
    assert!(Tile::default().is_free());
    assert!(!Tile { ground: Some(GroundKind::Water), terrain: None, roof: None }.is_free());
    assert!(!Tile { ground: Some(GroundKind::Grass), terrain: Some(TerrainKind::Tree), roof: None }.is_free());
    assert!(Tile { ground: Some(GroundKind::Rock), terrain: Some(TerrainKind::Entrance), roof: None }.is_free());
}

#[test]
fn frame_round_trip() {
    let payload: Vec<u8> = vec![9, 8, 7, 0, 255];
    let mut bytes = encode_frame(&payload).unwrap();
    assert_eq!(&bytes[..4], &[0, 0, 0, 5]);
    bytes.extend_from_slice(&[1, 2]);
    assert_eq!(decode_frame(&bytes), Some((payload, 9)));
    assert_eq!(frame_len(&bytes), 5);
    assert_eq!(decode_frame(&vec![0, 0, 1]), None);
    assert_eq!(decode_frame(&vec![0, 0, 0, 3, 1, 2]), None);
    assert_eq!(decode_frame(&vec![0, 0, 0, 0]), Some((vec![], 4)));
    let big: Vec<u8> = vec![1; 300];
    let f = encode_frame(&big).unwrap();
    assert_eq!(&f[..4], &[0, 0, 1, 44]);
    assert_eq!(decode_frame(&f), Some((big, 304)));
}

#[test]
fn handshake_framing() {
    let name = b"alice".to_vec();
    assert_eq!(encode_frame(&name).unwrap(), vec![0, 0, 0, 5, b'a', b'l', b'i', b'c', b'e']);
    assert_eq!(client_id_frame(ClientId(1)), vec![0, 0, 0, 8, 1, 0, 0, 0, 0, 0, 0, 0]);
    assert_eq!(encode_u64_le(0x0102_0304_0506_0708), vec![8, 7, 6, 5, 4, 3, 2, 1]);
}

#[test]
fn inventory_insert_and_merge() {
    let mut a = Inventory::new(2);
    let log = Item { kind: ItemKind::Log };
    assert!(a.insert(log));
    assert!(a.insert(log));
    assert!(!a.insert(log));
    assert_eq!(a.items, vec![(log, 2)]);
    assert_eq!(a.count(), 2);
    let mut b = Inventory::new(3);
    let mut c = Inventory::new(5);
    c.insert(log);
    c.insert(log);
    c.insert(log);
    b.insert_inventory(&mut c);
    assert_eq!(b.count(), 3);
    assert!(c.is_empty());
    let mut full = Inventory::new(1);
    let mut d = Inventory::of_item(log);
    let mut e = Inventory::of_item(log);
    full.insert_inventory(&mut d);
    full.insert_inventory(&mut e);
    assert!(d.is_empty());
    assert_eq!(e.count(), 1);
    assert_eq!(full.count(), 1);
}
