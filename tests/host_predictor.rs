use rustgame::geom::{Dir, Vec as Pos};
use rustgame::host::{ClientEvent, Host, HostAction};
use rustgame::inventory::Inventory;
use rustgame::predictor::{Predictor, PredictorAction};
use rustgame::protocol::{ClientId, EventId, FromClientEvent, ToClientEvent};
use rustgame::tile_map::TileMap;
use rustgame::world::{Entity, EntityId, EntityKind, PlayerActionEvent, World, WorldEvent};

fn player(c: u64) -> Entity {
    Entity {
        pos: Pos::new(0, 0),
        kind: EntityKind::Player(ClientId(c)),
        hp: Some((10, 10)),
        inventory: Some(Inventory::new(64)),
    }
}

#[test]
fn host_assigns_ids_from_one() {
    let mut h = Host::new(World::new(TileMap::new()));
    assert_eq!(h.assign_client_id(), Some(ClientId(1)));
    assert_eq!(h.assign_client_id(), Some(ClientId(2)));
}

#[test]
fn host_connect_broadcasts_and_spawns() {
    let mut h = Host::new(World::new(TileMap::new()));
    let a = h.handle(ClientEvent::ClientConnected(ClientId(1), "alice".to_string()));
    assert_eq!(a.len(), 3);
    assert!(matches!(a[0], HostAction::Broadcast(ToClientEvent::NewClientId(ClientId(1)))));
    assert!(matches!(a[1], HostAction::ReplyWorld(ClientId(1))));
    match &a[2] {
        HostAction::Post(ev) => assert_eq!(ev, &WorldEvent::CreateEntity(player(1))),
        _ => panic!("expected a post"),
    }
    assert!(h.has_client(ClientId(1)));
    assert!(!h.has_client(ClientId(2)));
}

#[test]
fn host_applies_and_posts_deferred() {
    let mut h = Host::new(World::new(TileMap::new()));
    let a = h.handle(ClientEvent::WorldEvent(EventId(5), None, WorldEvent::CreateEntity(player(1))));
    assert_eq!(a.len(), 3);
    assert!(matches!(&a[0], HostAction::Broadcast(ToClientEvent::WorldEvent(EventId(5), None, _))));
    match (&a[1], &a[2]) {
        (HostAction::Post(WorldEvent::SpawnEntity(id, _)), HostAction::Post(WorldEvent::Enter(id2, _))) => {
            assert_eq!(*id, EntityId(0));
            assert_eq!(*id2, EntityId(0));
        },
        _ => panic!("expected two posts"),
    }
    assert_eq!(h.world.next_entity_id, EntityId(1));
}

#[test]
fn host_kicks_illegal_sender() {
    let mut h = Host::new(World::new(TileMap::new()));
    h.handle(ClientEvent::ClientConnected(ClientId(2), "bob".to_string()));
    let a = h.handle(ClientEvent::WorldEvent(
        EventId(1),
        Some(ClientId(2)),
        WorldEvent::PlayerAction(EntityId(0), PlayerActionEvent::Move(Dir::left())),
    ));
    assert_eq!(a.len(), 1);
    match &a[0] {
        HostAction::Kick(c, reason) => {
            assert_eq!(*c, ClientId(2));
            assert_eq!(reason, "Third world error: IllegalEvent");
        },
        _ => panic!("expected a kick"),
    }
    assert!(!h.has_client(ClientId(2)));
}

#[test]
fn host_disconnect_removes_player() {
    let mut h = Host::new(World::new(TileMap::new()));
    h.handle(ClientEvent::ClientConnected(ClientId(1), "alice".to_string()));
    h.handle(ClientEvent::WorldEvent(EventId(1), None, WorldEvent::SpawnEntity(EntityId(0), player(1))));
    let a = h.handle(ClientEvent::ClientDisconnect(ClientId(1), Some("reset".to_string())));
    assert_eq!(a.len(), 3);
    assert!(matches!(&a[0], HostAction::Post(WorldEvent::DeleteEntity(EntityId(0)))));
    assert!(matches!(&a[1], HostAction::Broadcast(ToClientEvent::RemoveClientId(ClientId(1)))));
    match &a[2] {
        HostAction::LogDisconnect(name, err) => {
            assert_eq!(name, "alice");
            assert_eq!(err.as_deref(), Some("reset"));
        },
        _ => panic!("expected a log"),
    }
}

#[test]
fn host_shutdown_kicks_everyone() {
    let mut h = Host::new(World::new(TileMap::new()));
    let a = h.handle(ClientEvent::Shutdown());
    assert_eq!(a.len(), 2);
    match &a[0] {
        HostAction::Broadcast(ToClientEvent::Kick(r)) => assert_eq!(r, "Server shutting down."),
        _ => panic!("expected a kick broadcast"),
    }
    assert!(matches!(a[1], HostAction::Stop));
}

#[test]
fn host_internal_bad_event_is_fatal() {
    let mut h = Host::new(World::new(TileMap::new()));
    let a = h.handle(ClientEvent::WorldEvent(EventId(1), None, WorldEvent::Enter(EntityId(3), Pos::new(0, 0))));
    assert!(matches!(a[a.len() - 1], HostAction::Stop));
}

#[test]
fn predictor_speculates_then_confirms() {
    let me = ClientId(1);
    let w = World::new(TileMap::new());
    let (w, _) = w.handle_event(None, WorldEvent::SpawnEntity(EntityId(0), player(1))).unwrap();
    let mut p = Predictor::new(me, w);
    let mv = WorldEvent::PlayerAction(EntityId(0), PlayerActionEvent::Move(Dir::down()));
    let a = p.on_local(mv.clone(), EventId(42), 10);
    assert_eq!(a.len(), 1);
    match &a[0] {
        PredictorAction::Send(FromClientEvent::PlayerEvent(id, ev)) => {
            assert_eq!(*id, EventId(42));
            assert_eq!(ev, &mv);
        },
        _ => panic!("expected a send"),
    }
    assert_eq!(p.speculative.entity(EntityId(0)).unwrap().pos, Pos::new(0, 1));
    assert_eq!(p.agreed.entity(EntityId(0)).unwrap().pos, Pos::new(0, 0));
    assert_eq!(p.awaiting.len(), 1);
    p.on_server(20, ToClientEvent::WorldEvent(EventId(42), Some(me), mv), 30);
    assert!(p.awaiting.is_empty());
    assert_eq!(p.agreed.entity(EntityId(0)).unwrap().pos, Pos::new(0, 1));
    assert_eq!(p.speculative.entity(EntityId(0)).unwrap().pos, Pos::new(0, 1));
}

#[test]
fn predictor_learns_self_and_dies() {
    let me = ClientId(3);
    let mut p = Predictor::new(me, World::new(TileMap::new()));
    let a = p.on_server(1, ToClientEvent::WorldEvent(EventId(1), None, WorldEvent::SpawnEntity(EntityId(4), player(3))), 2);
    assert!(matches!(a[0], PredictorAction::StartInput(EntityId(4))));
    assert!(matches!(a[1], PredictorAction::Render));
    assert_eq!(p.self_entity, Some(EntityId(4)));
    let a = p.on_server(2, ToClientEvent::WorldEvent(EventId(2), None, WorldEvent::DeleteEntity(EntityId(4))), 3);
    assert!(matches!(a[0], PredictorAction::Send(FromClientEvent::Disconnect())));
    assert!(matches!(a[1], PredictorAction::Died));
    let a = p.on_server(3, ToClientEvent::Kick("bye".to_string()), 4);
    assert!(matches!(&a[0], PredictorAction::Kicked(r) if r == "bye"));
}

#[test]
fn host_evicts_refusing_queues() {
    let mut h = Host::new(World::new(TileMap::new()));
    h.handle(ClientEvent::ClientConnected(ClientId(1), "a".to_string()));
    h.handle(ClientEvent::ClientConnected(ClientId(2), "b".to_string()));
    h.handle(ClientEvent::ClientConnected(ClientId(3), "c".to_string()));
    let gone = h.evict(vec![(ClientId(1), true), (ClientId(2), false), (ClientId(3), false)]);
    assert_eq!(gone, vec![ClientId(2), ClientId(3)]);
    assert!(h.has_client(ClientId(1)));
    assert!(!h.has_client(ClientId(2)) && !h.has_client(ClientId(3)));
}
