use rustgame::geom::{Dir, Vec as Pos};
use rustgame::host::{ClientEvent, Host, HostAction};
use rustgame::input::{is_wasd, key_to_event, wasd_to_dir};
use rustgame::protocol::{ClientId, EventId, FromClientEvent};
use rustgame::session::{inbound_event, local_inbound_event};
use rustgame::tile_map::TileMap;
use rustgame::world::{EntityId, EntityKind, PlayerActionEvent, World, WorldEvent};

#[test]
fn keys_map_to_actions() {
    assert!(is_wasd('w') && is_wasd('d') && !is_wasd('x') && !is_wasd('W'));
    assert_eq!(wasd_to_dir('a'), Dir::left());
    assert_eq!(wasd_to_dir('s'), Dir::down());
    let id = EntityId(3);
    assert_eq!(key_to_event(id, 'w'), Some(WorldEvent::PlayerAction(id, PlayerActionEvent::Move(Dir::up()))));
    assert_eq!(key_to_event(id, 'D'), Some(WorldEvent::PlayerAction(id, PlayerActionEvent::Attack(Dir::right()))));
    assert_eq!(key_to_event(id, 'q'), None);
}

#[test]
fn session_messages_to_arbiter_events() {
    let ev = WorldEvent::DeleteEntity(EntityId(1));
    match inbound_event(ClientId(4), FromClientEvent::PlayerEvent(EventId(9), ev.clone())) {
        Some(ClientEvent::WorldEvent(e, s, w)) => {
            assert_eq!(e, EventId(9));
            assert_eq!(s, Some(ClientId(4)));
            assert_eq!(w, ev);
        }
        _ => panic!("expected a world event"),
    }
    assert!(inbound_event(ClientId(4), FromClientEvent::Disconnect()).is_none());
    assert!(matches!(local_inbound_event(ClientId(0), FromClientEvent::Disconnect()), ClientEvent::Shutdown()));
}

/// Runs the arbiter until no self-posted event is left.
fn settle(host: &mut Host, first: ClientEvent) {
    let mut queue = vec![first];
    let mut next_id = 100;
    while let Some(ev) = queue.pop() {
        for a in host.handle(ev) {
            if let HostAction::Post(w) = a {
                next_id += 1;
                queue.insert(0, ClientEvent::WorldEvent(EventId(next_id), None, w));
            }
        }
    }
}

#[test]
fn one_player_per_client() {
    let mut host = Host::new(World::new(TileMap::new()));
    settle(&mut host, ClientEvent::ClientConnected(ClientId(1), "a".to_string()));
    settle(&mut host, ClientEvent::ClientConnected(ClientId(2), "b".to_string()));
    let ids = host.world.entity_ids();
    assert_eq!(ids, vec![EntityId(0), EntityId(1)]);
    let kinds: Vec<EntityKind> = ids.iter().map(|id| host.world.entity(*id).unwrap().kind).collect();
    assert_eq!(kinds, vec![EntityKind::Player(ClientId(1)), EntityKind::Player(ClientId(2))]);
    assert!(ids.iter().all(|id| id.0 < host.world.next_entity_id.0));
    settle(&mut host, ClientEvent::ClientDisconnect(ClientId(1), None));
    assert_eq!(host.world.entity_ids(), vec![EntityId(1)]);
    assert_eq!(host.world.entity(EntityId(1)).unwrap().pos, Pos::new(0, 0));
}

#[test]
fn directions_from_steps() {
    assert_eq!(Dir::from_vec(Pos::new(0, -1)), Some(Dir::up()));
    assert_eq!(Dir::from_vec(Pos::new(1, 0)), Some(Dir::right()));
    assert_eq!(Dir::from_vec(Pos::new(1, 1)), None);
    assert_eq!(Dir::from_vec(Pos::new(0, 0)), None);
}

#[test]
fn hurt_keeps_max_and_queues_delete() {
    let w = World::new(TileMap::new());
    let mut e = rustgame::world::Entity {
        pos: Pos::new(0, 0),
        kind: EntityKind::Treasure,
        hp: Some((1, 5)),
        inventory: None,
    };
    let (w, _) = w.handle_event(None, WorldEvent::SpawnEntity(EntityId(2), e.clone())).unwrap();
    let mut w = w;
    let mut evs = Vec::new();
    w.hurt(&mut evs, EntityId(2), 1);
    assert_eq!(w.entity(EntityId(2)).unwrap().hp, Some((0, 5)));
    assert_eq!(evs, vec![(0, WorldEvent::DeleteEntity(EntityId(2)))]);
    e.hp = Some((4, 5));
    let (mut w2, _) = w.handle_event(None, WorldEvent::SpawnEntity(EntityId(2), e)).unwrap();
    let mut evs2 = Vec::new();
    w2.hurt(&mut evs2, EntityId(2), 1);
    assert_eq!(w2.entity(EntityId(2)).unwrap().hp, Some((3, 5)));
    assert!(evs2.is_empty());
}
