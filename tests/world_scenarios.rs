use rustgame::geom::{Dir, Vec as Pos};
use rustgame::inventory::{Inventory, Item, ItemKind};
use rustgame::protocol::ClientId;
use rustgame::tile_map::{GroundKind, TerrainKind, Tile, TileMap, RoofKind};
use rustgame::world::{Entity, EntityId, EntityKind, PlayerActionEvent, World, WorldError, WorldEvent};

fn tile(ground: Option<GroundKind>, terrain: Option<TerrainKind>) -> Tile {
    Tile { ground, terrain, roof: None }
}

fn player(c: u64, x: i32, y: i32) -> Entity {
    Entity {
        pos: Pos::new(x, y),
        kind: EntityKind::Player(ClientId(c)),
        hp: Some((10, 10)),
        inventory: Some(Inventory::new(64)),
    }
}

fn log_treasure(x: i32, y: i32) -> Entity {
    Entity {
        pos: Pos::new(x, y),
        kind: EntityKind::Treasure,
        hp: None,
        inventory: Some(Inventory::of_item(Item { kind: ItemKind::Log })),
    }
}

/// A world with the given tile at (1, 0) and the player of client 1 spawned at (0, 0) as entity 0.
fn world_with(t: Tile) -> World {
    let mut tiles = TileMap::new();
    tiles.set(Pos::new(1, 0), t);
    let w = World::new(tiles);
    let (w, d) = w.handle_event(None, WorldEvent::CreateEntity(player(1, 0, 0))).unwrap();
    let mut w = w;
    for (_, ev) in d {
        let (next, _) = w.handle_event(None, ev).unwrap();
        w = next;
    }
    w
}

#[test]
fn movement_accept() {
    let w = world_with(tile(Some(GroundKind::Grass), None));
    let (w2, d) = w
        .handle_event(Some(ClientId(1)), WorldEvent::PlayerAction(EntityId(0), PlayerActionEvent::Move(Dir::right())))
        .unwrap();
    assert_eq!(w2.entity(EntityId(0)).unwrap().pos, Pos::new(1, 0));
    assert_eq!(d, vec![(0, WorldEvent::Enter(EntityId(0), Pos::new(1, 0)))]);
    assert_eq!(w.entity(EntityId(0)).unwrap().pos, Pos::new(0, 0));
}

#[test]
fn movement_reject_water() {
    let w = world_with(tile(Some(GroundKind::Water), None));
    let (w2, d) = w
        .handle_event(Some(ClientId(1)), WorldEvent::PlayerAction(EntityId(0), PlayerActionEvent::Move(Dir::right())))
        .unwrap();
    assert_eq!(w2.entity(EntityId(0)).unwrap(), w.entity(EntityId(0)).unwrap());
    assert_eq!(w2.entity_ids(), w.entity_ids());
    assert!(d.is_empty());
}

#[test]
fn movement_reject_roof_edge() {
    let w = world_with(Tile { ground: Some(GroundKind::Rock), terrain: None, roof: Some(RoofKind::Mountain) });
    let (w2, d) = w
        .handle_event(Some(ClientId(1)), WorldEvent::PlayerAction(EntityId(0), PlayerActionEvent::Move(Dir::right())))
        .unwrap();
    assert_eq!(w2.entity(EntityId(0)).unwrap().pos, Pos::new(0, 0));
    assert!(d.is_empty());
}

#[test]
fn movement_through_entrance() {
    let w = world_with(Tile {
        ground: Some(GroundKind::Rock),
        terrain: Some(TerrainKind::Entrance),
        roof: Some(RoofKind::Mountain),
    });
    let (w2, d) = w
        .handle_event(Some(ClientId(1)), WorldEvent::PlayerAction(EntityId(0), PlayerActionEvent::Move(Dir::right())))
        .unwrap();
    assert_eq!(w2.entity(EntityId(0)).unwrap().pos, Pos::new(1, 0));
    assert_eq!(d.len(), 1);
}

#[test]
fn movement_blocked_by_player() {
    let w = world_with(tile(Some(GroundKind::Grass), None));
    let (w, _) = w.handle_event(None, WorldEvent::SpawnEntity(EntityId(7), player(2, 1, 0))).unwrap();
    let (w2, d) = w
        .handle_event(Some(ClientId(1)), WorldEvent::PlayerAction(EntityId(0), PlayerActionEvent::Move(Dir::right())))
        .unwrap();
    assert_eq!(w2.entity(EntityId(0)).unwrap().pos, Pos::new(0, 0));
    assert!(d.is_empty());
}

#[test]
fn attack_on_tree_yields_log() {
    let w = world_with(tile(Some(GroundKind::Grass), Some(TerrainKind::Tree)));
    let (w2, d) = w
        .handle_event(Some(ClientId(1)), WorldEvent::PlayerAction(EntityId(0), PlayerActionEvent::Attack(Dir::right())))
        .unwrap();
    assert_eq!(w2.tiles.get(Pos::new(1, 0)).terrain, None);
    assert_eq!(w.tiles.get(Pos::new(1, 0)).terrain, Some(TerrainKind::Tree));
    assert_eq!(d, vec![(0, WorldEvent::CreateEntity(log_treasure(1, 0)))]);
    let next = w2.next_entity_id;
    let (w3, d2) = w2.handle_event(None, d[0].1.clone()).unwrap();
    assert_eq!(w3.next_entity_id, EntityId(next.0 + 1));
    assert!(w3.entity(next).is_none());
    assert_eq!(
        d2,
        vec![
            (0, WorldEvent::SpawnEntity(next, log_treasure(1, 0))),
            (0, WorldEvent::Enter(next, Pos::new(1, 0))),
        ]
    );
}

#[test]
fn attack_hurts_and_deletes() {
    let w = world_with(tile(Some(GroundKind::Grass), None));
    let mut victim = player(2, 1, 0);
    victim.hp = Some((1, 10));
    let (w, _) = w.handle_event(None, WorldEvent::SpawnEntity(EntityId(5), victim)).unwrap();
    let (w2, d) = w
        .handle_event(Some(ClientId(1)), WorldEvent::PlayerAction(EntityId(0), PlayerActionEvent::Attack(Dir::right())))
        .unwrap();
    assert_eq!(w2.entity(EntityId(5)).unwrap().hp, Some((0, 10)));
    assert_eq!(d, vec![(0, WorldEvent::DeleteEntity(EntityId(5)))]);
}

#[test]
fn inventory_pickup() {
    let w = World::new(TileMap::new());
    let (w, _) = w.handle_event(None, WorldEvent::SpawnEntity(EntityId(0), player(1, 1, 0))).unwrap();
    let (w, _) = w.handle_event(None, WorldEvent::SpawnEntity(EntityId(1), log_treasure(1, 0))).unwrap();
    let (w2, d) = w.handle_event(None, WorldEvent::Enter(EntityId(0), Pos::new(1, 0))).unwrap();
    let inv = w2.entity(EntityId(0)).unwrap().inventory.unwrap();
    assert_eq!(inv.items, vec![(Item { kind: ItemKind::Log }, 1)]);
    assert_eq!(inv.count(), 1);
    assert!(w2.entity(EntityId(1)).unwrap().inventory.unwrap().is_empty());
    assert_eq!(d, vec![(0, WorldEvent::DeleteEntity(EntityId(1)))]);
}

#[test]
fn authorization_fail() {
    let w = world_with(tile(Some(GroundKind::Grass), None));
    let r = w.handle_event(Some(ClientId(2)), WorldEvent::PlayerAction(EntityId(0), PlayerActionEvent::Move(Dir::left())));
    assert_eq!(r.err(), Some(WorldError::IllegalEvent));
    assert_eq!(w.entity(EntityId(0)).unwrap().pos, Pos::new(0, 0));
    let r = w.handle_event(Some(ClientId(1)), WorldEvent::DeleteEntity(EntityId(0)));
    assert_eq!(r.err(), Some(WorldError::IllegalEvent));
    let r = w.handle_event(Some(ClientId(1)), WorldEvent::PlayerAction(EntityId(9), PlayerActionEvent::Move(Dir::left())));
    assert_eq!(r.err(), Some(WorldError::IllegalEvent));
}

#[test]
fn next_id_above_all_keys() {
    let w = world_with(tile(Some(GroundKind::Grass), None));
    let (w, d) = w.handle_event(None, WorldEvent::CreateEntity(player(2, 3, 3))).unwrap();
    let mut w = w;
    for (_, ev) in d {
        w = w.handle_event(None, ev).unwrap().0;
    }
    let ids = w.entity_ids();
    assert_eq!(ids, vec![EntityId(0), EntityId(1)]);
    assert!(ids.iter().all(|id| id.0 < w.next_entity_id.0));
}

#[test]
fn player_exit_event_finds_player() {
    let w = world_with(tile(Some(GroundKind::Grass), None));
    assert_eq!(w.create_player_exit_event(ClientId(1)), Some(WorldEvent::DeleteEntity(EntityId(0))));
    assert_eq!(w.create_player_exit_event(ClientId(4)), None);
    let (w2, _) = w.handle_event(None, WorldEvent::DeleteEntity(EntityId(0))).unwrap();
    assert!(w2.entity(EntityId(0)).is_none());
    let (w3, _) = w2.handle_event(None, WorldEvent::DeleteEntity(EntityId(0))).unwrap();
    assert!(w3.entity_ids().is_empty());
}

#[test]
fn spawn_event_for_player() {
    let w = World::new(TileMap::new());
    assert_eq!(w.create_player_spawn_event(ClientId(3)), WorldEvent::CreateEntity(player(3, 0, 0)));
}

#[test]
fn entities_at_position_in_id_order() {
    let w = World::new(TileMap::new());
    let (w, _) = w.handle_event(None, WorldEvent::SpawnEntity(EntityId(9), log_treasure(2, 2))).unwrap();
    let (w, _) = w.handle_event(None, WorldEvent::SpawnEntity(EntityId(4), log_treasure(2, 2))).unwrap();
    let (w, _) = w.handle_event(None, WorldEvent::SpawnEntity(EntityId(6), log_treasure(1, 2))).unwrap();
    assert_eq!(w.get_entities_at(Pos::new(2, 2)), vec![EntityId(4), EntityId(9)]);
    assert!(w.is_free(Pos::new(2, 2)));
}
