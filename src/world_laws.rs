//! Invariants that every transition of the world keeps.
use vstd::prelude::*;
use crate::geom::spec_add;
use crate::protocol::ClientId;
use crate::world::{
    Deferred, EntityId, EntityView, PlayerActionEvent, WorldEventView, WorldView, collider_at,
    hurt_all, hurt_step, ids_at, kind_collides, lemma_ids_at_pub, merge_all, merge_step,
    spec_handle, well_formed_event,
};

verus! {

/// The world after the transition, or the same world where it is refused.
pub open spec fn next_world(w: WorldView, sender: Option<ClientId>, ev: WorldEventView) -> WorldView {
    match spec_handle(w, sender, ev) {
        Ok((w2, _)) => w2,
        Err(_) => w,
    }
}

/// Every entity id lies below the next id to hand out.
pub open spec fn ids_below_next(w: WorldView) -> bool {
    forall|k: u64| #[trigger] w.entities.contains_key(k) ==> k < w.next_entity_id
}

/// No participant has two players.
pub open spec fn players_unique(ents: Map<u64, EntityView>) -> bool {
    forall|a: u64, b: u64|
        #![trigger ents[a], ents[b]]
        ents.contains_key(a) && ents.contains_key(b) && a != b && ents[a].kind is Player ==> ents[a].kind
            != ents[b].kind
}

/// No two colliding entities share a position.
pub open spec fn colliders_apart(ents: Map<u64, EntityView>) -> bool {
    forall|a: u64, b: u64|
        #![trigger ents[a], ents[b]]
        ents.contains_key(a) && ents.contains_key(b) && a != b && kind_collides(ents[a].kind)
            && kind_collides(ents[b].kind) ==> ents[a].pos != ents[b].pos
}

/// Same entities, each with the same position and kind.
pub open spec fn same_frame(a: Map<u64, EntityView>, b: Map<u64, EntityView>) -> bool {
    &&& a.dom() == b.dom()
    &&& forall|k: u64| #[trigger] a.contains_key(k) ==> b[k].pos == a[k].pos && b[k].kind == a[k].kind
}

/// An explicit spawn reuses an id already handed out.
pub open spec fn spawn_allocated(w: WorldView, ev: WorldEventView) -> bool {
    match ev {
        WorldEventView::SpawnEntity(id, _) => id.0 < w.next_entity_id,
        _ => true,
    }
}

/// An explicit spawn brings no second player for a participant.
pub open spec fn spawn_keeps_players_unique(w: WorldView, ev: WorldEventView) -> bool {
    match ev {
        WorldEventView::SpawnEntity(id, e) => e.kind is Player ==> forall|k: u64|
            #[trigger] w.entities.contains_key(k) && k != id.0 ==> w.entities[k].kind != e.kind,
        _ => true,
    }
}

/// An explicit spawn of a colliding entity goes where no other one stands.
pub open spec fn spawn_keeps_colliders_apart(w: WorldView, ev: WorldEventView) -> bool {
    match ev {
        WorldEventView::SpawnEntity(id, e) => kind_collides(e.kind) ==> forall|k: u64|
            #[trigger] w.entities.contains_key(k) && k != id.0 && kind_collides(w.entities[k].kind)
                ==> w.entities[k].pos != e.pos,
        _ => true,
    }
}

proof fn lemma_hurt_all_frame(ents: Map<u64, EntityView>, d: Seq<Deferred>, ids: Seq<u64>)
    requires
        forall|i: int| 0 <= i < ids.len() ==> ents.contains_key(#[trigger] ids[i]),
    ensures
        same_frame(ents, hurt_all(ents, d, ids).0),
    decreases ids.len(),
{
    if ids.len() > 0 {
        let prefix = ids.drop_last();
        assert forall|i: int| 0 <= i < prefix.len() implies ents.contains_key(#[trigger] prefix[i]) by {
            assert(prefix[i] == ids[i]);
        }
        lemma_hurt_all_frame(ents, d, prefix);
        let (e2, d2) = hurt_all(ents, d, prefix);
        assert(ents.contains_key(ids[ids.len() - 1]));
        let r = hurt_step(e2, d2, ids.last(), 1).0;
        assert(r.dom() =~= ents.dom());
    }
}

proof fn lemma_merge_all_frame(
    ents: Map<u64, EntityView>,
    inv: crate::inventory::InventoryView,
    id: u64,
    ids: Seq<u64>,
)
    requires
        forall|i: int| 0 <= i < ids.len() ==> ents.contains_key(#[trigger] ids[i]),
    ensures
        same_frame(ents, merge_all(ents, inv, id, ids).0),
    decreases ids.len(),
{
    if ids.len() > 0 {
        let prefix = ids.drop_last();
        assert forall|i: int| 0 <= i < prefix.len() implies ents.contains_key(#[trigger] prefix[i]) by {
            assert(prefix[i] == ids[i]);
        }
        lemma_merge_all_frame(ents, inv, id, prefix);
        let (e2, i2, d2) = merge_all(ents, inv, id, prefix);
        assert(ents.contains_key(ids[ids.len() - 1]));
        let r = merge_step(e2, i2, d2, id, ids.last()).0;
        assert(r.dom() =~= ents.dom());
    }
}

proof fn lemma_ids_at_in_dom(ents: Map<u64, EntityView>, pos: crate::geom::Vec)
    ensures
        forall|i: int| 0 <= i < ids_at(ents, pos).len() ==> ents.contains_key(#[trigger] ids_at(ents, pos)[i]),
{
    assert forall|i: int| 0 <= i < ids_at(ents, pos).len() implies ents.contains_key(#[trigger] ids_at(ents, pos)[i]) by {
        lemma_ids_at_pub(ents, pos, i);
    }
}

/// Player actions, entering and deleting keep every remaining entity's
/// position and kind, but for the mover's new position.
proof fn lemma_frame_of_step(w: WorldView, sender: Option<ClientId>, ev: WorldEventView)
    requires
        spec_handle(w, sender, ev) is Ok,
        sender.is_none() ==> well_formed_event(w, ev),
    ensures
        match ev {
            WorldEventView::PlayerAction(_, PlayerActionEvent::Attack(_)) => same_frame(
                w.entities,
                next_world(w, sender, ev).entities,
            ),
            WorldEventView::Enter(_, _) => same_frame(
                w.entities,
                next_world(w, sender, ev).entities,
            ),
            _ => true,
        },
{
    match ev {
        WorldEventView::PlayerAction(id, PlayerActionEvent::Attack(dir)) => {
            let cur = w.entities[id.0].pos;
            let target = spec_add(cur, dir.spec_vec());
            lemma_ids_at_in_dom(w.entities, target);
            lemma_hurt_all_frame(w.entities, Seq::empty(), ids_at(w.entities, target));
        },
        WorldEventView::Enter(id, pos) => {
            match w.entities[id.0].inventory {
                None => {},
                Some(inv) => {
                    lemma_ids_at_in_dom(w.entities, pos);
                    lemma_merge_all_frame(w.entities, inv, id.0, ids_at(w.entities, pos));
                    let ents = merge_all(w.entities, inv, id.0, ids_at(w.entities, pos)).0;
                    let r = next_world(w, sender, ev).entities;
                    assert(r.dom() =~= w.entities.dom());
                },
            }
        },
        _ => {},
    }
}

/// Every entity id stays below the next id to hand out, as long as explicit
/// spawns reuse ids already handed out.
pub proof fn lemma_next_id_stays_above(w: WorldView, sender: Option<ClientId>, ev: WorldEventView)
    requires
        ids_below_next(w),
        spawn_allocated(w, ev),
        sender.is_none() ==> well_formed_event(w, ev),
    ensures
        spec_handle(w, sender, ev) is Ok ==> ids_below_next(next_world(w, sender, ev)),
{
    if spec_handle(w, sender, ev) is Ok {
        lemma_frame_of_step(w, sender, ev);
        let w2 = next_world(w, sender, ev);
        assert forall|k: u64| #[trigger] w2.entities.contains_key(k) implies k < w2.next_entity_id by {
            match ev {
                WorldEventView::PlayerAction(_, PlayerActionEvent::Attack(_)) => {
                    assert(w.entities.contains_key(k));
                },
                WorldEventView::Enter(_, _) => {
                    assert(w.entities.contains_key(k));
                },
                _ => {},
            }
        }
    }
}

/// No participant gets a second player, as long as explicit spawns bring
/// none.
pub proof fn lemma_players_stay_unique(w: WorldView, sender: Option<ClientId>, ev: WorldEventView)
    requires
        players_unique(w.entities),
        spawn_keeps_players_unique(w, ev),
        sender.is_none() ==> well_formed_event(w, ev),
    ensures
        spec_handle(w, sender, ev) is Ok ==> players_unique(next_world(w, sender, ev).entities),
{
    if spec_handle(w, sender, ev) is Ok {
        lemma_frame_of_step(w, sender, ev);
        let e2 = next_world(w, sender, ev).entities;
        assert forall|a: u64, b: u64|
            e2.contains_key(a) && e2.contains_key(b) && a != b && e2[a].kind is Player implies e2[a].kind
                != e2[b].kind by {
            match ev {
                WorldEventView::SpawnEntity(id, e) => {
                    if a != id.0 && b != id.0 {
                        assert(w.entities[a] == e2[a] && w.entities[b] == e2[b]);
                    }
                },
                _ => {
                    assert(w.entities.contains_key(a) && w.entities.contains_key(b));
                    assert(e2[a].kind == w.entities[a].kind);
                    assert(e2[b].kind == w.entities[b].kind);
                },
            }
        }
    }
}

/// Colliding entities never come to share a position, as long as explicit
/// spawns of colliding entities go where no other one stands.
pub proof fn lemma_colliders_stay_apart(w: WorldView, sender: Option<ClientId>, ev: WorldEventView)
    requires
        colliders_apart(w.entities),
        spawn_keeps_colliders_apart(w, ev),
        sender.is_none() ==> well_formed_event(w, ev),
    ensures
        spec_handle(w, sender, ev) is Ok ==> colliders_apart(next_world(w, sender, ev).entities),
{
    if spec_handle(w, sender, ev) is Ok {
        lemma_frame_of_step(w, sender, ev);
        let e2 = next_world(w, sender, ev).entities;
        assert forall|a: u64, b: u64|
            e2.contains_key(a) && e2.contains_key(b) && a != b && kind_collides(e2[a].kind)
                && kind_collides(e2[b].kind) implies e2[a].pos != e2[b].pos by {
            match ev {
                WorldEventView::SpawnEntity(id, e) => {
                    if a != id.0 && b != id.0 {
                        assert(w.entities[a] == e2[a] && w.entities[b] == e2[b]);
                    } else if a == id.0 {
                        assert(w.entities.contains_key(b) && w.entities[b] == e2[b]);
                    } else {
                        assert(w.entities.contains_key(a) && w.entities[a] == e2[a]);
                    }
                },
                WorldEventView::PlayerAction(id, PlayerActionEvent::Move(dir)) => {
                    let cur = w.entities[id.0].pos;
                    let next = spec_add(cur, dir.spec_vec());
                    assert(w.entities.contains_key(a) && w.entities.contains_key(b));
                    if a == id.0 && e2[a].pos != w.entities[a].pos {
                        assert(!collider_at(w.entities, next));
                        assert(w.entities[b] == e2[b]);
                    } else if b == id.0 && e2[b].pos != w.entities[b].pos {
                        assert(!collider_at(w.entities, next));
                        assert(w.entities[a] == e2[a]);
                    }
                },
                WorldEventView::PlayerAction(_, PlayerActionEvent::Attack(_)) => {
                    assert(w.entities.contains_key(a) && w.entities.contains_key(b));
                },
                WorldEventView::Enter(_, _) => {
                    assert(w.entities.contains_key(a) && w.entities.contains_key(b));
                },
                _ => {
                    assert(w.entities.contains_key(a) && w.entities.contains_key(b));
                },
            }
        }
    }
}

/// Damage keeps the maximum, keeps the current value at or below it, and an
/// entity brought to zero or below is queued for deletion.
pub proof fn lemma_hurt_bounds(ents: Map<u64, EntityView>, d: Seq<Deferred>, id: u64, dmg: i64)
    requires
        ents.contains_key(id),
        dmg >= 0,
        match ents[id].hp {
            Some((h, m)) => h <= m,
            None => false,
        },
    ensures
        ({
            let (e2, d2) = hurt_step(ents, d, id, dmg);
            let (h, m) = ents[id].hp.unwrap();
            let (h2, m2) = e2[id].hp.unwrap();
            &&& e2[id].hp is Some
            &&& m2 == m
            &&& h2 <= m2
            &&& h2 <= h
            &&& h2 <= 0 ==> d2 == d.push((0u64, WorldEventView::DeleteEntity(EntityId(id))))
        }),
{
}

} // verus!
