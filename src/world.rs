//! The replicated world and its transition function.
use vstd::prelude::*;
use crate::geom::{Vec as Pos, Dir, sum_fits, spec_add};
use crate::protocol::ClientId;
use crate::persistent::{EntityMap, sorted_keys, keys_below};
pub use crate::inventory::{Inventory, Item, ItemKind};
use crate::inventory::{InventoryView, spec_merge};
pub use crate::tile_map::{Chunk, GroundKind, RoofKind, TerrainKind, Tile, TileMap, CHUNK_SIZE};
use crate::tile_map::{set_chunks, tile_in, tile_is_free, chunk_of, index_in_chunk, default_tile, CHUNK_TILES};

verus! {

/// Names an entity; handed out in increasing order and never reused.
#[derive(Debug, Copy, Clone, PartialEq, Eq, Structural)]
pub struct EntityId(pub u64);

impl EntityId {
    fn next(self) -> (r: EntityId)
        requires
            self.0 < u64::MAX,
        ensures
            r.0 == self.0 + 1,
    {
        EntityId(self.0 + 1)
    }
}

#[derive(Debug, Copy, Clone, PartialEq, Eq, Structural)]
pub enum EntityKind {
    Player(ClientId),
    /// Items lying on the ground, to be picked up.
    Treasure,
}

/// A thing in the world.
#[derive(Debug, Clone, PartialEq, Eq)]
pub struct Entity {
    pub pos: Pos,
    pub kind: EntityKind,
    pub hp: Option<(i64, i64)>,
    pub inventory: Option<Inventory>,
}

pub struct EntityView {
    pub pos: Pos,
    pub kind: EntityKind,
    pub hp: Option<(i64, i64)>,
    pub inventory: Option<InventoryView>,
}

impl View for Entity {
    type V = EntityView;

    open spec fn view(&self) -> EntityView {
        EntityView {
            pos: self.pos,
            kind: self.kind,
            hp: self.hp,
            inventory: match self.inventory {
                Some(i) => Some(i@),
                None => None,
            },
        }
    }
}

/// Entities of this kind block each other's way.
pub open spec fn kind_collides(k: EntityKind) -> bool {
    k is Player
}

/// The entity's bag, if any, is well formed.
pub open spec fn entity_ok(e: EntityView) -> bool {
    match e.inventory {
        Some(i) => i.wf(),
        None => true,
    }
}

impl Entity {
    pub fn is_player(&self, client: ClientId) -> (r: bool)
        ensures
            r == (self.kind == EntityKind::Player(client)),
    {
        match self.kind {
            EntityKind::Player(c) => c == client,
            _ => false,
        }
    }

    pub fn has_collision(&self) -> (r: bool)
        ensures
            r == kind_collides(self.kind),
    {
        match self.kind {
            EntityKind::Player(_) => true,
            EntityKind::Treasure => false,
        }
    }

    /// A copy of this entity.
    pub fn copy(&self) -> (r: Entity)
        ensures
            r@ == self@,
    {
        Entity {
            pos: self.pos,
            kind: self.kind,
            hp: self.hp,
            inventory: match &self.inventory {
                Some(i) => Some(i.copy()),
                None => None,
            },
        }
    }
}

#[derive(Debug, Copy, Clone, PartialEq, Eq, Structural)]
pub enum PlayerActionEvent {
    Move(Dir),
    Attack(Dir),
}

#[derive(Debug, Clone, PartialEq, Eq)]
pub enum WorldEvent {
    PlayerAction(EntityId, PlayerActionEvent),
    /// Inserts the entity under the given id.
    SpawnEntity(EntityId, Entity),
    DeleteEntity(EntityId),
    /// Asks for a fresh id; the entity is inserted by a follow-up `SpawnEntity`.
    CreateEntity(Entity),
    /// The entity has arrived at the position.
    Enter(EntityId, Pos),
}

pub enum WorldEventView {
    PlayerAction(EntityId, PlayerActionEvent),
    SpawnEntity(EntityId, EntityView),
    DeleteEntity(EntityId),
    CreateEntity(EntityView),
    Enter(EntityId, Pos),
}

impl View for WorldEvent {
    type V = WorldEventView;

    open spec fn view(&self) -> WorldEventView {
        match self {
            WorldEvent::PlayerAction(id, a) => WorldEventView::PlayerAction(*id, *a),
            WorldEvent::SpawnEntity(id, e) => WorldEventView::SpawnEntity(*id, e@),
            WorldEvent::DeleteEntity(id) => WorldEventView::DeleteEntity(*id),
            WorldEvent::CreateEntity(e) => WorldEventView::CreateEntity(e@),
            WorldEvent::Enter(id, p) => WorldEventView::Enter(*id, *p),
        }
    }
}

impl WorldEvent {
    /// A copy of this event.
    pub fn copy(&self) -> (r: WorldEvent)
        ensures
            r@ == self@,
    {
        match self {
            WorldEvent::PlayerAction(id, a) => WorldEvent::PlayerAction(*id, *a),
            WorldEvent::SpawnEntity(id, e) => WorldEvent::SpawnEntity(*id, e.copy()),
            WorldEvent::DeleteEntity(id) => WorldEvent::DeleteEntity(*id),
            WorldEvent::CreateEntity(e) => WorldEvent::CreateEntity(e.copy()),
            WorldEvent::Enter(id, p) => WorldEvent::Enter(*id, *p),
        }
    }
}

#[derive(Debug, Copy, Clone, PartialEq, Eq, Structural)]
pub enum WorldError {
    IllegalEvent,
}

/// A snapshot of the replicated world.
pub struct World {
    pub entities: EntityMap,
    pub next_entity_id: EntityId,
    pub tiles: TileMap,
}

pub struct WorldView {
    pub entities: Map<u64, EntityView>,
    pub next_entity_id: u64,
    pub tiles: Map<(i32, i32), Seq<Tile>>,
}

impl View for World {
    type V = WorldView;

    open spec fn view(&self) -> WorldView {
        WorldView {
            entities: self.entities.contents().map_values(|e: Entity| e@),
            next_entity_id: self.next_entity_id.0,
            tiles: self.tiles@,
        }
    }
}

/// A deferred event: a delay in milliseconds and the event.
pub type Deferred = (u64, WorldEventView);

pub open spec fn deferred_view(d: Seq<(u64, WorldEvent)>) -> Seq<Deferred> {
    d.map_values(|p: (u64, WorldEvent)| (p.0, p.1@))
}

pub open spec fn tile_at(w: WorldView, pos: Pos) -> Tile {
    tile_in(w.tiles, pos)
}

/// Some colliding entity stands at `pos`.
pub open spec fn collider_at(ents: Map<u64, EntityView>, pos: Pos) -> bool {
    exists|k: u64| #[trigger] ents.contains_key(k) && ents[k].pos == pos && kind_collides(ents[k].kind)
}

/// `pos` can be entered: its tile is free and no colliding entity is there.
pub open spec fn spec_is_free(w: WorldView, pos: Pos) -> bool {
    tile_is_free(tile_at(w, pos)) && !collider_at(w.entities, pos)
}

/// A move from `cur` to `next` crosses no roof edge, but through an entrance.
pub open spec fn roof_ok(w: WorldView, cur: Pos, next: Pos) -> bool {
    ||| tile_at(w, next).roof == tile_at(w, cur).roof
    ||| tile_at(w, cur).roof.is_none() && tile_at(w, next).terrain == Some(TerrainKind::Entrance)
    ||| tile_at(w, next).roof.is_none() && tile_at(w, cur).terrain == Some(TerrainKind::Entrance)
}

/// Whether the entity under a key stands at `pos`.
pub open spec fn at_pos(ents: Map<u64, EntityView>, pos: Pos) -> spec_fn(u64) -> bool {
    |k: u64| ents[k].pos == pos
}

/// The ids of the entities at `pos`, in increasing order.
pub open spec fn ids_at(ents: Map<u64, EntityView>, pos: Pos) -> Seq<u64> {
    sorted_keys(ents.dom()).filter(at_pos(ents, pos))
}

/// The numbers of a sequence of entity ids.
pub open spec fn id_nums(s: Seq<EntityId>) -> Seq<u64> {
    s.map_values(|e: EntityId| e.0)
}

/// Every bag is well formed.
pub open spec fn entities_ok(ents: Map<u64, EntityView>) -> bool {
    forall|k: u64| #[trigger] ents.contains_key(k) ==> entity_ok(ents[k])
}

pub open spec fn with_pos(e: EntityView, pos: Pos) -> EntityView {
    EntityView { pos, kind: e.kind, hp: e.hp, inventory: e.inventory }
}

pub open spec fn with_hp(e: EntityView, hp: Option<(i64, i64)>) -> EntityView {
    EntityView { pos: e.pos, kind: e.kind, hp, inventory: e.inventory }
}

pub open spec fn with_inventory(e: EntityView, inv: Option<InventoryView>) -> EntityView {
    EntityView { pos: e.pos, kind: e.kind, hp: e.hp, inventory: inv }
}

/// `h - dmg`, held at the lowest `i64` rather than passing it.
pub open spec fn sat_sub(h: i64, dmg: i64) -> i64 {
    if h - dmg < i64::MIN { i64::MIN } else { (h - dmg) as i64 }
}

/// Damage to one entity: its current hit points drop by `dmg`, and one at or
/// below zero is to be deleted.
pub open spec fn hurt_step(
    ents: Map<u64, EntityView>,
    d: Seq<Deferred>,
    id: u64,
    dmg: i64,
) -> (Map<u64, EntityView>, Seq<Deferred>) {
    match ents[id].hp {
        None => (ents, d),
        Some((h, m)) => {
            let h2 = sat_sub(h, dmg);
            (
                ents.insert(id, with_hp(ents[id], Some((h2, m)))),
                if h2 <= 0 {
                    d.push((0u64, WorldEventView::DeleteEntity(EntityId(id))))
                } else {
                    d
                },
            )
        },
    }
}

/// One point of damage to each of `ids`, in order.
pub open spec fn hurt_all(ents: Map<u64, EntityView>, d: Seq<Deferred>, ids: Seq<u64>) -> (
    Map<u64, EntityView>,
    Seq<Deferred>,
)
    decreases ids.len(),
{
    if ids.len() == 0 {
        (ents, d)
    } else {
        let (e2, d2) = hurt_all(ents, d, ids.drop_last());
        hurt_step(e2, d2, ids.last(), 1)
    }
}

/// The tiles after `t` replaces the tile at `pos`.
pub open spec fn tiles_with(tiles: Map<(i32, i32), Seq<Tile>>, pos: Pos, t: Tile) -> Map<
    (i32, i32),
    Seq<Tile>,
> {
    set_chunks(tiles, pos, t)
}

/// A treasure at `pos` holding `inv`.
pub open spec fn treasure_view(pos: Pos, inv: InventoryView) -> EntityView {
    EntityView { pos, kind: EntityKind::Treasure, hp: None, inventory: Some(inv) }
}

/// The treasure a felled tree leaves: one log.
pub open spec fn log_treasure(pos: Pos) -> EntityView {
    treasure_view(pos, InventoryView { items: seq![(Item { kind: ItemKind::Log }, 1usize)], cap: 1 })
}

/// A tree at `pos` is cut down and leaves a log; other tiles stay.
pub open spec fn spec_break(tiles: Map<(i32, i32), Seq<Tile>>, pos: Pos) -> (
    Map<(i32, i32), Seq<Tile>>,
    Seq<Deferred>,
) {
    let t = tile_in(tiles, pos);
    if t.terrain == Some(TerrainKind::Tree) {
        (
            tiles_with(tiles, pos, Tile { ground: t.ground, terrain: None, roof: t.roof }),
            seq![(0u64, WorldEventView::CreateEntity(log_treasure(pos)))],
        )
    } else {
        (tiles, Seq::empty())
    }
}

pub open spec fn spec_move(w: WorldView, id: u64, dir: Dir) -> (WorldView, Seq<Deferred>) {
    let cur = w.entities[id].pos;
    let next = spec_add(cur, dir.spec_vec());
    if sum_fits(cur, dir.spec_vec()) && spec_is_free(w, next) && roof_ok(w, cur, next) {
        (
            WorldView {
                entities: w.entities.insert(id, with_pos(w.entities[id], next)),
                next_entity_id: w.next_entity_id,
                tiles: w.tiles,
            },
            seq![(0u64, WorldEventView::Enter(EntityId(id), next))],
        )
    } else {
        (w, Seq::empty())
    }
}

pub open spec fn spec_attack(w: WorldView, id: u64, dir: Dir) -> (WorldView, Seq<Deferred>) {
    let cur = w.entities[id].pos;
    let target = spec_add(cur, dir.spec_vec());
    if sum_fits(cur, dir.spec_vec()) && tile_at(w, target).roof == tile_at(w, cur).roof {
        let (ents, d) = hurt_all(w.entities, Seq::empty(), ids_at(w.entities, target));
        let (tiles, d2) = spec_break(w.tiles, target);
        (WorldView { entities: ents, next_entity_id: w.next_entity_id, tiles }, d + d2)
    } else {
        (w, Seq::empty())
    }
}

/// The entering bag `inv` takes from the bag of `oid`, unless `oid` is the
/// entering entity itself; an emptied treasure is to be deleted.
pub open spec fn merge_step(
    ents: Map<u64, EntityView>,
    inv: InventoryView,
    d: Seq<Deferred>,
    id: u64,
    oid: u64,
) -> (Map<u64, EntityView>, InventoryView, Seq<Deferred>) {
    if oid == id {
        (ents, inv, d)
    } else {
        match ents[oid].inventory {
            None => (ents, inv, d),
            Some(o) => {
                let (inv2, o2) = spec_merge(inv, o);
                (
                    ents.insert(oid, with_inventory(ents[oid], Some(o2))),
                    inv2,
                    if o2.items.len() == 0 && ents[oid].kind == EntityKind::Treasure {
                        d.push((0u64, WorldEventView::DeleteEntity(EntityId(oid))))
                    } else {
                        d
                    },
                )
            },
        }
    }
}

pub open spec fn merge_all(
    ents: Map<u64, EntityView>,
    inv: InventoryView,
    id: u64,
    ids: Seq<u64>,
) -> (Map<u64, EntityView>, InventoryView, Seq<Deferred>)
    decreases ids.len(),
{
    if ids.len() == 0 {
        (ents, inv, Seq::empty())
    } else {
        let (e2, i2, d2) = merge_all(ents, inv, id, ids.drop_last());
        merge_step(e2, i2, d2, id, ids.last())
    }
}

pub open spec fn spec_enter(w: WorldView, id: u64, pos: Pos) -> (WorldView, Seq<Deferred>) {
    match w.entities[id].inventory {
        None => (w, Seq::empty()),
        Some(inv) => {
            let (ents, inv2, d) = merge_all(w.entities, inv, id, ids_at(w.entities, pos));
            (
                WorldView {
                    entities: ents.insert(id, with_inventory(ents[id], Some(inv2))),
                    next_entity_id: w.next_entity_id,
                    tiles: w.tiles,
                },
                d,
            )
        },
    }
}

/// `sender` may ask for `ev`: the host may ask for anything, a participant
/// only for actions of its own player.
pub open spec fn authorized(w: WorldView, sender: Option<ClientId>, ev: WorldEventView) -> bool {
    match sender {
        None => true,
        Some(c) => match ev {
            WorldEventView::PlayerAction(id, _) => w.entities.contains_key(id.0)
                && w.entities[id.0].kind == EntityKind::Player(c),
            _ => false,
        },
    }
}

/// What the host itself must ensure of the events it applies: they name
/// entities that exist, bring well-formed bags, and leave an id to allocate.
pub open spec fn well_formed_event(w: WorldView, ev: WorldEventView) -> bool {
    match ev {
        WorldEventView::PlayerAction(id, _) => w.entities.contains_key(id.0),
        WorldEventView::SpawnEntity(_, e) => entity_ok(e),
        WorldEventView::DeleteEntity(_) => true,
        WorldEventView::CreateEntity(_) => w.next_entity_id < u64::MAX,
        WorldEventView::Enter(id, _) => w.entities.contains_key(id.0),
    }
}

/// The transition: the next world and the deferred events, or the refusal.
pub open spec fn spec_handle(w: WorldView, sender: Option<ClientId>, ev: WorldEventView) -> Result<
    (WorldView, Seq<Deferred>),
    WorldError,
> {
    if !authorized(w, sender, ev) {
        Err(WorldError::IllegalEvent)
    } else {
        Ok(
            match ev {
                WorldEventView::PlayerAction(id, PlayerActionEvent::Move(dir)) => spec_move(
                    w,
                    id.0,
                    dir,
                ),
                WorldEventView::PlayerAction(id, PlayerActionEvent::Attack(dir)) => spec_attack(
                    w,
                    id.0,
                    dir,
                ),
                WorldEventView::SpawnEntity(id, e) => (
                    WorldView {
                        entities: w.entities.insert(id.0, e),
                        next_entity_id: w.next_entity_id,
                        tiles: w.tiles,
                    },
                    Seq::empty(),
                ),
                WorldEventView::DeleteEntity(id) => (
                    WorldView {
                        entities: w.entities.remove(id.0),
                        next_entity_id: w.next_entity_id,
                        tiles: w.tiles,
                    },
                    Seq::empty(),
                ),
                WorldEventView::CreateEntity(e) => (
                    WorldView {
                        entities: w.entities,
                        next_entity_id: (w.next_entity_id + 1) as u64,
                        tiles: w.tiles,
                    },
                    seq![
                        (0u64, WorldEventView::SpawnEntity(EntityId(w.next_entity_id), e)),
                        (0u64, WorldEventView::Enter(EntityId(w.next_entity_id), e.pos)),
                    ],
                ),
                WorldEventView::Enter(id, pos) => spec_enter(w, id.0, pos),
            },
        )
    }
}

/// The entity that joins the world for participant `c`.
pub open spec fn player_entity(c: ClientId) -> EntityView {
    EntityView {
        pos: Pos { x: 0, y: 0 },
        kind: EntityKind::Player(c),
        hp: Some((10, 10)),
        inventory: Some(InventoryView { items: Seq::empty(), cap: 64 }),
    }
}

pub proof fn lemma_keys_below(dom: Set<u64>, n: nat, k: u64)
    ensures
        keys_below(dom, n).contains(k) <==> (dom.contains(k) && k < n),
    decreases n,
{
    if n > 0 {
        lemma_keys_below(dom, (n - 1) as nat, k);
        let rest = keys_below(dom, (n - 1) as nat);
        if dom.contains((n - 1) as u64) {
            assert(rest.push((n - 1) as u64)[rest.len() as int] == (n - 1) as u64);
            if rest.contains(k) {
                let i = choose|i: int| 0 <= i < rest.len() && rest[i] == k;
                assert(rest.push((n - 1) as u64)[i] == k);
            }
            if rest.push((n - 1) as u64).contains(k) && k != (n - 1) as u64 {
                let i = choose|i: int| 0 <= i < rest.len() + 1 && #[trigger] rest.push((n - 1) as u64)[i] == k;
                assert(rest[i] == k);
            }
        }
    }
}

/// The sorted keys of a set are exactly its members.
pub proof fn lemma_sorted_keys(dom: Set<u64>, k: u64)
    ensures
        sorted_keys(dom).contains(k) <==> dom.contains(k),
{
    lemma_keys_below(dom, 0x1_0000_0000_0000_0000, k);
}


/// The element `ids_at(ents, pos)[i]` names an entity at `pos`.
pub proof fn lemma_ids_at_pub(ents: Map<u64, EntityView>, pos: Pos, i: int)
    requires
        0 <= i < ids_at(ents, pos).len(),
    ensures
        ents.contains_key(ids_at(ents, pos)[i]),
        ents[ids_at(ents, pos)[i]].pos == pos,
{
    lemma_ids_at(ents, pos, i);
}

proof fn lemma_ids_at(ents: Map<u64, EntityView>, pos: Pos, i: int)
    requires
        0 <= i < ids_at(ents, pos).len(),
    ensures
        ents.contains_key(ids_at(ents, pos)[i]),
        ents[ids_at(ents, pos)[i]].pos == pos,
{
    let s = sorted_keys(ents.dom());
    let k = ids_at(ents, pos)[i];
    s.lemma_filter_pred(at_pos(ents, pos), i);
    assert(s.filter(at_pos(ents, pos)).contains(k));
    s.lemma_filter_contains_rev(at_pos(ents, pos), k);
    lemma_sorted_keys(ents.dom(), k);
}

fn same_roof(a: Option<crate::tile_map::RoofKind>, b: Option<crate::tile_map::RoofKind>) -> (r: bool)
    ensures
        r == (a == b),
{
    match a {
        None => b.is_none(),
        Some(x) => match b {
            Some(y) => x == y,
            None => false,
        },
    }
}

fn is_entrance(t: Option<TerrainKind>) -> (r: bool)
    ensures
        r == (t == Some(TerrainKind::Entrance)),
{
    match t {
        Some(TerrainKind::Entrance) => true,
        _ => false,
    }
}

impl World {
    /// Every chunk is whole and every bag well formed.
    pub open spec fn wf(&self) -> bool {
        self.tiles.wf() && entities_ok(self@.entities)
    }

    /// An empty world over the given tiles.
    pub fn new(tiles: TileMap) -> (r: World)
        requires
            tiles.wf(),
        ensures
            r.wf(),
            r@.entities =~= Map::empty(),
            r@.next_entity_id == 0,
            r@.tiles == tiles@,
    {
        let r = World { entities: EntityMap::empty(), next_entity_id: EntityId(0), tiles };
        assert(r@.entities =~= Map::empty());
        r
    }

    /// A snapshot sharing this world's data.
    pub fn snapshot(&self) -> (r: World)
        ensures
            r@ == self@,
    {
        let r = World {
            entities: self.entities.share(),
            next_entity_id: self.next_entity_id,
            tiles: self.tiles.share(),
        };
        assert(r@.entities =~= self@.entities);
        r
    }

    /// A copy of the entity under `id`, if any.
    pub fn entity(&self, id: EntityId) -> (r: Option<Entity>)
        ensures
            self@.entities.contains_key(id.0) ==> r.is_some() && r.unwrap()@ == self@.entities[id.0],
            !self@.entities.contains_key(id.0) ==> r.is_none(),
    {
        match self.entities.get(id.0) {
            Some(e) => Some(e.copy()),
            None => None,
        }
    }

    /// The ids of all entities, in increasing order.
    pub fn entity_ids(&self) -> (r: Vec<EntityId>)
        ensures
            id_nums(r@) == sorted_keys(self@.entities.dom()),
    {
        let keys = self.entities.keys();
        let mut out: Vec<EntityId> = Vec::new();
        let mut i: usize = 0;
        while i < keys.len()
            invariant
                i <= keys@.len(),
                id_nums(out@) == keys@.take(i as int),
            decreases keys@.len() - i,
        {
            let ghost before = out@;
            out.push(EntityId(keys[i]));
            assert(id_nums(out@) =~= id_nums(before).push(keys@[i as int]));
            assert(keys@.take(i + 1) =~= keys@.take(i as int).push(keys@[i as int]));
            i = i + 1;
        }
        assert(keys@.take(i as int) =~= keys@);
        assert(self@.entities.dom() =~= self.entities.contents().dom());
        out
    }

    /// The ids of the entities standing at `pos`, in increasing order.
    pub fn get_entities_at(&self, pos: Pos) -> (r: Vec<EntityId>)
        ensures
            id_nums(r@) == ids_at(self@.entities, pos),
    {
        let keys = self.entities.keys();
        let ghost ents = self@.entities;
        let ghost pred = at_pos(ents, pos);
        proof {
            assert(ents.dom() =~= self.entities.contents().dom());
        }
        let mut out: Vec<EntityId> = Vec::new();
        let mut i: usize = 0;
        while i < keys.len()
            invariant
                i <= keys@.len(),
                keys@ == sorted_keys(ents.dom()),
                ents == self@.entities,
                pred == at_pos(ents, pos),
                id_nums(out@) == keys@.take(i as int).filter(pred),
            decreases keys@.len() - i,
        {
            let k = keys[i];
            proof {
                assert(keys@.contains(k));
                lemma_sorted_keys(ents.dom(), k);
                assert(keys@.take(i + 1).drop_last() =~= keys@.take(i as int));
            }
            let e = self.entities.get(k).unwrap();
            let ghost before = out@;
            assert(keys@.take(i + 1).last() == k);
            if e.pos == pos {
                out.push(EntityId(k));
                assert(id_nums(out@) =~= id_nums(before).push(k));
            }
            assert(pred(k) == (e.pos == pos));
            proof {
                reveal(Seq::filter);
                assert(keys@.take(i + 1).filter(pred) == (if pred(k) {
                    keys@.take(i as int).filter(pred).push(k)
                } else {
                    keys@.take(i as int).filter(pred)
                }));
            }
            i = i + 1;
        }
        assert(keys@.take(i as int) =~= keys@);
        out
    }

    /// Puts `e` under `id`.
    fn set_entity(&mut self, id: u64, e: Entity)
        ensures
            final(self)@ == (WorldView {
                entities: old(self)@.entities.insert(id, e@),
                next_entity_id: old(self)@.next_entity_id,
                tiles: old(self)@.tiles,
            }),
    {
        self.entities.insert(id, e);
        assert(self@.entities =~= old(self)@.entities.insert(id, e@));
    }

    /// `pos` can be entered: the tile is free and no colliding entity is there.
    pub fn is_free(&self, pos: Pos) -> (r: bool)
        requires
            self.wf(),
        ensures
            r == spec_is_free(self@, pos),
    {
        let t = self.tiles.get(pos);
        if !t.is_free() {
            return false;
        }
        let ids = self.get_entities_at(pos);
        let ghost ents = self@.entities;
        let mut i: usize = 0;
        while i < ids.len()
            invariant
                i <= ids@.len(),
                ents == self@.entities,
                id_nums(ids@) == ids_at(ents, pos),
                forall|j: int| 0 <= j < i ==> !kind_collides(#[trigger] ents[ids@[j].0].kind),
            decreases ids@.len() - i,
        {
            let id = ids[i];
            proof {
                assert(ids_at(ents, pos)[i as int] == id.0);
                lemma_ids_at(ents, pos, i as int);
            }
            let e = self.entities.get(id.0).unwrap();
            if e.has_collision() {
                proof {
                    assert(ents.contains_key(id.0) && ents[id.0].pos == pos && kind_collides(ents[id.0].kind));
                }
                return false;
            }
            i = i + 1;
        }
        proof {
            if collider_at(ents, pos) {
                let k = choose|k: u64| #[trigger] ents.contains_key(k) && ents[k].pos == pos && kind_collides(ents[k].kind);
                let s = sorted_keys(ents.dom());
                lemma_sorted_keys(ents.dom(), k);
                let j = choose|j: int| 0 <= j < s.len() && s[j] == k;
                s.lemma_filter_contains(at_pos(ents, pos), j);
                let f = ids_at(ents, pos);
                let m = choose|m: int| 0 <= m < f.len() && f[m] == k;
                assert(ids@[m].0 == k);
                assert(false);
            }
        }
        true
    }

    /// One point of damage to the entity under `id`: its current hit points
    /// drop, and at zero or below its deletion is queued.
    pub fn hurt(&mut self, evs: &mut Vec<(u64, WorldEvent)>, id: EntityId, dmg: i64)
        requires
            old(self).wf(),
            old(self)@.entities.contains_key(id.0),
            dmg >= 0,
        ensures
            final(self).wf(),
            (final(self)@.entities, deferred_view(final(evs)@)) == hurt_step(
                old(self)@.entities,
                deferred_view(old(evs)@),
                id.0,
                dmg,
            ),
            final(self)@.next_entity_id == old(self)@.next_entity_id,
            final(self)@.tiles == old(self)@.tiles,
            final(self)@.entities.dom() == old(self)@.entities.dom(),
    {
        let e = self.entities.get(id.0).unwrap();
        match e.hp {
            None => {
                assert(final(self)@.entities.dom() == old(self)@.entities.dom());
            },
            Some((hp, max)) => {
                let h2 = match hp.checked_sub(dmg) {
                    Some(v) => v,
                    None => i64::MIN,
                };
                let mut ne = e.copy();
                ne.hp = Some((h2, max));
                assert(h2 == sat_sub(hp, dmg));
                assert(ne@ == with_hp(old(self)@.entities[id.0], Some((h2, max))));
                self.set_entity(id.0, ne);
                if h2 <= 0 {
                    evs.push((0, WorldEvent::DeleteEntity(id)));
                }
                proof {
                    assert(deferred_view(evs@) =~= hurt_step(
                        old(self)@.entities,
                        deferred_view(old(evs)@),
                        id.0,
                        dmg,
                    ).1);
                    assert(self@.entities =~= hurt_step(
                        old(self)@.entities,
                        deferred_view(old(evs)@),
                        id.0,
                        dmg,
                    ).0);
                    assert(self@.entities.dom() =~= old(self)@.entities.dom());
                }
            },
        }
    }

    /// Cuts a tree at `pos` down, queueing the log it leaves.
    fn break_tile(&mut self, evs: &mut Vec<(u64, WorldEvent)>, pos: Pos)
        requires
            old(self).wf(),
        ensures
            final(self).wf(),
            final(self)@.tiles == spec_break(old(self)@.tiles, pos).0,
            deferred_view(final(evs)@) == deferred_view(old(evs)@) + spec_break(old(self)@.tiles, pos).1,
            final(self)@.entities == old(self)@.entities,
            final(self)@.next_entity_id == old(self)@.next_entity_id,
    {
        let tile = self.tiles.get(pos);
        match tile.terrain {
            Some(TerrainKind::Tree) => {
                let cleared = Tile { ground: tile.ground, terrain: None, roof: tile.roof };
                self.tiles.set(pos, cleared);
                assert(self@.entities == old(self)@.entities);
                assert(self.tiles.wf());
                let ev = Inventory::of_item(Item { kind: ItemKind::Log }).drop(pos);
                evs.push((0, ev));
                proof {
                    assert(ev@ == WorldEventView::CreateEntity(log_treasure(pos)));
                    assert(deferred_view(evs@) =~= deferred_view(old(evs)@) + spec_break(old(self)@.tiles, pos).1);
                }
            },
            _ => {
                assert(deferred_view(evs@) =~= deferred_view(old(evs)@) + spec_break(old(self)@.tiles, pos).1);
            },
        }
    }

    fn apply_move(&mut self, evs: &mut Vec<(u64, WorldEvent)>, id: EntityId, dir: Dir)
        requires
            old(self).wf(),
            old(self)@.entities.contains_key(id.0),
            old(evs)@.len() == 0,
        ensures
            final(self).wf(),
            (final(self)@, deferred_view(final(evs)@)) == spec_move(old(self)@, id.0, dir),
    {
        let cur = self.entities.get(id.0).unwrap().pos;
        match cur.checked_add(dir.to_vec()) {
            None => {
                assert(deferred_view(evs@) =~= Seq::empty());
            },
            Some(next) => {
                let mut moved = false;
                if self.is_free(next) {
                    let tn = self.tiles.get(next);
                    let tc = self.tiles.get(cur);
                    if same_roof(tn.roof, tc.roof) || (tc.roof.is_none() && is_entrance(tn.terrain))
                        || (tn.roof.is_none() && is_entrance(tc.terrain)) {
                        let mut e = self.entities.get(id.0).unwrap().copy();
                        e.pos = next;
                        assert(e@ == with_pos(old(self)@.entities[id.0], next));
                        self.set_entity(id.0, e);
                        evs.push((0, WorldEvent::Enter(id, next)));
                        moved = true;
                        proof {
                            assert(deferred_view(evs@) =~= seq![(0u64, WorldEventView::Enter(id, next))]);
                            assert(id == EntityId(id.0));
                            assert forall|k: u64| #[trigger] self@.entities.contains_key(k) implies entity_ok(self@.entities[k]) by {
                                if k != id.0 {
                                    assert(old(self)@.entities.contains_key(k));
                                }
                            }
                        }
                    }
                }
                if !moved {
                    assert(deferred_view(evs@) =~= Seq::empty());
                }
            },
        }
    }

    fn apply_attack(&mut self, evs: &mut Vec<(u64, WorldEvent)>, id: EntityId, dir: Dir)
        requires
            old(self).wf(),
            old(self)@.entities.contains_key(id.0),
            old(evs)@.len() == 0,
        ensures
            final(self).wf(),
            (final(self)@, deferred_view(final(evs)@)) == spec_attack(old(self)@, id.0, dir),
    {
        let cur = self.entities.get(id.0).unwrap().pos;
        assert(deferred_view(evs@) =~= Seq::empty());
        match cur.checked_add(dir.to_vec()) {
            None => {},
            Some(target) => {
                if same_roof(self.tiles.get(target).roof, self.tiles.get(cur).roof) {
                    let ids = self.get_entities_at(target);
                    let ghost ents0 = self@.entities;
                    let ghost nums = id_nums(ids@);
                    let mut i: usize = 0;
                    while i < ids.len()
                        invariant
                            i <= ids@.len(),
                            self.wf(),
                            nums == id_nums(ids@),
                            nums == ids_at(ents0, target),
                            (self@.entities, deferred_view(evs@)) == hurt_all(
                                ents0,
                                Seq::empty(),
                                nums.take(i as int),
                            ),
                            self@.entities.dom() == ents0.dom(),
                            self@.tiles == old(self)@.tiles,
                            self@.next_entity_id == old(self)@.next_entity_id,
                        decreases ids@.len() - i,
                    {
                        proof {
                            lemma_ids_at(ents0, target, i as int);
                            assert(nums.take(i + 1).drop_last() =~= nums.take(i as int));
                        }
                        self.hurt(evs, ids[i], 1);
                        i = i + 1;
                    }
                    proof {
                        assert(nums.take(i as int) =~= nums);
                    }
                    self.break_tile(evs, target);
                }
            },
        }
    }

    fn apply_enter(&mut self, evs: &mut Vec<(u64, WorldEvent)>, id: EntityId, pos: Pos)
        requires
            old(self).wf(),
            old(self)@.entities.contains_key(id.0),
            old(evs)@.len() == 0,
        ensures
            final(self).wf(),
            (final(self)@, deferred_view(final(evs)@)) == spec_enter(old(self)@, id.0, pos),
    {
        assert(deferred_view(evs@) =~= Seq::empty());
        let start = match &self.entities.get(id.0).unwrap().inventory {
            Some(inv) => Some(inv.copy()),
            None => None,
        };
        match start {
            None => {},
            Some(mut inventory) => {
                assert(entity_ok(old(self)@.entities[id.0]));
                let ids = self.get_entities_at(pos);
                let ghost ents0 = self@.entities;
                let ghost nums = id_nums(ids@);
                let ghost inv0 = inventory@;
                let mut i: usize = 0;
                while i < ids.len()
                    invariant
                        i <= ids@.len(),
                        self.wf(),
                        inventory@.wf(),
                        nums == id_nums(ids@),
                        nums == ids_at(ents0, pos),
                        (self@.entities, inventory@, deferred_view(evs@)) == merge_all(
                            ents0,
                            inv0,
                            id.0,
                            nums.take(i as int),
                        ),
                        self@.entities.dom() == ents0.dom(),
                        self@.tiles == old(self)@.tiles,
                        self@.next_entity_id == old(self)@.next_entity_id,
                    decreases ids@.len() - i,
                {
                    proof {
                        lemma_ids_at(ents0, pos, i as int);
                        assert(nums.take(i + 1).drop_last() =~= nums.take(i as int));
                    }
                    let oid = ids[i];
                    if oid.0 != id.0 {
                        let oe = self.entities.get(oid.0).unwrap();
                        let is_treasure = match oe.kind {
                            EntityKind::Treasure => true,
                            _ => false,
                        };
                        let o_start = match &oe.inventory {
                            Some(o) => Some(o.copy()),
                            None => None,
                        };
                        let mut ne = oe.copy();
                        match o_start {
                            None => {},
                            Some(mut o_inv) => {
                                assert(entity_ok(self@.entities[oid.0]));
                                inventory.insert_inventory(&mut o_inv);
                                if o_inv.is_empty() && is_treasure {
                                    evs.push((0, WorldEvent::DeleteEntity(oid)));
                                }
                                ne.inventory = Some(o_inv);
                                let ghost before = self@.entities;
                                self.set_entity(oid.0, ne);
                                proof {
                                    assert(oid == EntityId(oid.0));
                                    assert forall|k: u64| #[trigger] self@.entities.contains_key(k) implies entity_ok(self@.entities[k]) by {
                                        if k != oid.0 {
                                            assert(before.contains_key(k));
                                        }
                                    }
                                    assert(self@.entities.dom() =~= ents0.dom());
                                }
                            },
                        }
                    }
                    i = i + 1;
                }
                proof {
                    assert(nums.take(i as int) =~= nums);
                }
                let mut me = self.entities.get(id.0).unwrap().copy();
                me.inventory = Some(inventory);
                let ghost before = self@.entities;
                self.set_entity(id.0, me);
                proof {
                    assert forall|k: u64| #[trigger] self@.entities.contains_key(k) implies entity_ok(self@.entities[k]) by {
                        if k != id.0 {
                            assert(before.contains_key(k));
                        }
                    }
                }
            },
        }
    }

    /// The authoritative transition: checks that `sender` may ask for `ev`,
    /// then yields the next world and the deferred events, each with its
    /// delay in milliseconds. The world itself is left as it was.
    pub fn handle_event(&self, sender: Option<ClientId>, ev: WorldEvent) -> (r: Result<
        (World, Vec<(u64, WorldEvent)>),
        WorldError,
    >)
        requires
            self.wf(),
            sender.is_none() ==> well_formed_event(self@, ev@),
        ensures
            match r {
                Ok((w, d)) => {
                    &&& spec_handle(self@, sender, ev@) == Ok::<(WorldView, Seq<Deferred>), WorldError>((w@, deferred_view(d@)))
                    &&& w.wf()
                },
                Err(e) => spec_handle(self@, sender, ev@) == Err::<(WorldView, Seq<Deferred>), WorldError>(e),
            },
    {
        match sender {
            None => {},
            Some(client) => match &ev {
                WorldEvent::PlayerAction(id, _) => match self.entities.get(id.0) {
                    None => {
                        return Err(WorldError::IllegalEvent);
                    },
                    Some(e) => {
                        if !e.is_player(client) {
                            return Err(WorldError::IllegalEvent);
                        }
                    },
                },
                _ => {
                    return Err(WorldError::IllegalEvent);
                },
            },
        }
        let mut w = self.snapshot();
        let mut evs: Vec<(u64, WorldEvent)> = Vec::new();
        match ev {
            WorldEvent::PlayerAction(id, PlayerActionEvent::Move(dir)) => {
                w.apply_move(&mut evs, id, dir);
            },
            WorldEvent::PlayerAction(id, PlayerActionEvent::Attack(dir)) => {
                w.apply_attack(&mut evs, id, dir);
            },
            WorldEvent::SpawnEntity(id, entity_data) => {
                w.set_entity(id.0, entity_data);
                proof {
                    assert forall|k: u64| #[trigger] w@.entities.contains_key(k) implies entity_ok(w@.entities[k]) by {
                        if k != id.0 {
                            assert(self@.entities.contains_key(k));
                        }
                    }
                    assert(deferred_view(evs@) =~= Seq::empty());
                }
            },
            WorldEvent::DeleteEntity(id) => {
                w.entities.remove(id.0);
                proof {
                    assert(w@.entities =~= self@.entities.remove(id.0));
                    assert forall|k: u64| #[trigger] w@.entities.contains_key(k) implies entity_ok(w@.entities[k]) by {
                        assert(self@.entities.contains_key(k));
                    }
                    assert(deferred_view(evs@) =~= Seq::empty());
                }
            },
            WorldEvent::CreateEntity(entity_data) => {
                let id = w.next_entity_id;
                let pos = entity_data.pos;
                let ghost e = entity_data@;
                evs.push((0, WorldEvent::SpawnEntity(id, entity_data)));
                w.next_entity_id = id.next();
                evs.push((0, WorldEvent::Enter(id, pos)));
                proof {
                    assert(w@.entities =~= self@.entities);
                    assert(id == EntityId(self@.next_entity_id));
                    assert(deferred_view(evs@) =~= seq![
                        (0u64, WorldEventView::SpawnEntity(EntityId(self@.next_entity_id), e)),
                        (0u64, WorldEventView::Enter(EntityId(self@.next_entity_id), e.pos)),
                    ]);
                }
            },
            WorldEvent::Enter(id, pos) => {
                w.apply_enter(&mut evs, id, pos);
            },
        }
        Ok((w, evs))
    }

    /// The event that brings participant `id`'s player into the world.
    pub fn create_player_spawn_event(&self, id: ClientId) -> (r: WorldEvent)
        ensures
            r@ == WorldEventView::CreateEntity(player_entity(id)),
    {
        let inv = Inventory::new(64);
        let r = WorldEvent::CreateEntity(Entity {
            pos: Pos::new(0, 0),
            kind: EntityKind::Player(id),
            hp: Some((10, 10)),
            inventory: Some(inv),
        });
        assert(inv@.items =~= Seq::empty());
        r
    }

    /// The event that removes participant `id`'s player: the first entity, by
    /// id, that is that player; `None` when there is none.
    pub fn create_player_exit_event(&self, id: ClientId) -> (r: Option<WorldEvent>)
        ensures
            r.is_none() <==> !exists|k: u64| #[trigger] self@.entities.contains_key(k)
                && self@.entities[k].kind == EntityKind::Player(id),
            r.is_some() ==> exists|k: u64| #[trigger] self@.entities.contains_key(k)
                && self@.entities[k].kind == EntityKind::Player(id)
                && r.unwrap()@ == WorldEventView::DeleteEntity(EntityId(k))
                && forall|j: u64| #[trigger] self@.entities.contains_key(j) && j < k
                    ==> self@.entities[j].kind != EntityKind::Player(id),
    {
        let ids = self.entity_ids();
        let ghost ents = self@.entities;
        let ghost keys = sorted_keys(ents.dom());
        let mut i: usize = 0;
        while i < ids.len()
            invariant
                i <= ids@.len(),
                ents == self@.entities,
                id_nums(ids@) == keys,
                keys == sorted_keys(ents.dom()),
                forall|j: int| 0 <= j < i ==> ents[#[trigger] keys[j]].kind != EntityKind::Player(id),
            decreases ids@.len() - i,
        {
            let eid = ids[i];
            proof {
                assert(keys[i as int] == eid.0);
                assert(keys.contains(eid.0));
                lemma_sorted_keys(ents.dom(), eid.0);
            }
            let e = self.entities.get(eid.0).unwrap();
            if e.is_player(id) {
                proof {
                    assert forall|j: u64| #[trigger] ents.contains_key(j) && j < eid.0
                        implies ents[j].kind != EntityKind::Player(id) by {
                        lemma_sorted_keys(ents.dom(), j);
                        let m = choose|m: int| 0 <= m < keys.len() && keys[m] == j;
                        lemma_sorted_keys_ascending(ents.dom(), m, i as int);
                    }
                    assert(eid == EntityId(eid.0));
                }
                return Some(WorldEvent::DeleteEntity(eid));
            }
            i = i + 1;
        }
        proof {
            assert forall|k: u64| #[trigger] ents.contains_key(k) implies ents[k].kind != EntityKind::Player(id) by {
                lemma_sorted_keys(ents.dom(), k);
                let m = choose|m: int| 0 <= m < keys.len() && keys[m] == k;
            }
        }
        None
    }
}

/// Keys further along the sorted sequence are larger.
pub proof fn lemma_keys_below_ascending(dom: Set<u64>, n: nat, a: int, b: int)
    requires
        0 <= a < b < keys_below(dom, n).len(),
        n <= 0x1_0000_0000_0000_0000,
    ensures
        keys_below(dom, n)[a] < keys_below(dom, n)[b],
        keys_below(dom, n)[b] < n,
    decreases n,
{
    if n > 0 {
        let rest = keys_below(dom, (n - 1) as nat);
        if dom.contains((n - 1) as u64) && b == rest.len() {
            lemma_keys_below(dom, (n - 1) as nat, rest[a]);
            assert(rest.contains(rest[a]));
            assert(keys_below(dom, n)[b] == (n - 1) as u64);
            assert(keys_below(dom, n)[a] == rest[a]);
        } else {
            lemma_keys_below_ascending(dom, (n - 1) as nat, a, b);
            assert(keys_below(dom, n)[b] == rest[b]);
            assert(keys_below(dom, n)[a] == rest[a]);
        }
    }
}

pub proof fn lemma_sorted_keys_ascending(dom: Set<u64>, a: int, b: int)
    requires
        0 <= a < sorted_keys(dom).len(),
        0 <= b < sorted_keys(dom).len(),
        sorted_keys(dom)[a] < sorted_keys(dom)[b],
    ensures
        a < b,
{
    if b < a {
        lemma_keys_below_ascending(dom, 0x1_0000_0000_0000_0000, b, a);
    }
    if a == b {
    }
}

} // verus!
