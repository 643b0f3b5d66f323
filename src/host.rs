//! The host arbiter's decisions: from its state and one incoming event to
//! its next state and the actions to perform, in order.
use vstd::prelude::*;
use std::collections::HashMap;
use crate::protocol::{ClientId, EventId, ToClientEvent, ToClientEventView};
use crate::world::{
    Deferred, EntityKind, World, WorldError, WorldEvent, WorldEventView, WorldView, deferred_view,
    player_entity, spec_handle, well_formed_event,
};

verus! {

/// What reaches the arbiter.
pub enum ClientEvent {
    /// A participant finished its handshake.
    ClientConnected(ClientId, String),
    /// A participant's session ended, with the error that ended it, if any.
    ClientDisconnect(ClientId, Option<String>),
    /// A world event, from a participant or from the host itself.
    WorldEvent(EventId, Option<ClientId>, WorldEvent),
    Shutdown(),
}

pub open spec fn opt_str_view(o: Option<String>) -> Option<Seq<char>> {
    match o {
        Some(s) => Some(s@),
        None => None,
    }
}

pub enum ClientEventView {
    ClientConnected(ClientId, Seq<char>),
    ClientDisconnect(ClientId, Option<Seq<char>>),
    WorldEvent(EventId, Option<ClientId>, WorldEventView),
    Shutdown,
}

impl View for ClientEvent {
    type V = ClientEventView;

    open spec fn view(&self) -> ClientEventView {
        match self {
            ClientEvent::ClientConnected(c, n) => ClientEventView::ClientConnected(*c, n@),
            ClientEvent::ClientDisconnect(c, e) => ClientEventView::ClientDisconnect(*c, opt_str_view(*e)),
            ClientEvent::WorldEvent(e, s, w) => ClientEventView::WorldEvent(*e, *s, w@),
            ClientEvent::Shutdown() => ClientEventView::Shutdown,
        }
    }
}

/// What the arbiter asks its runner to do.
pub enum HostAction {
    /// Send to every registered participant, evicting those whose queue refuses it.
    Broadcast(ToClientEvent),
    /// Hand the joining participant a snapshot of the world.
    ReplyWorld(ClientId),
    /// Feed the event back into the arbiter now, under a fresh event id.
    Post(WorldEvent),
    /// Feed the event back into the arbiter after the given milliseconds.
    Schedule(u64, WorldEvent),
    /// Send this participant, already unregistered, a kick with the reason.
    Kick(ClientId, String),
    /// Report that a participant left, by name, with the error if any.
    LogDisconnect(String, Option<String>),
    /// Report a transition the host itself asked for and that failed.
    Fatal(WorldError),
    /// Leave the loop.
    Stop,
}

pub enum HostActionView {
    Broadcast(ToClientEventView),
    ReplyWorld(ClientId),
    Post(WorldEventView),
    Schedule(u64, WorldEventView),
    Kick(ClientId, Seq<char>),
    LogDisconnect(Seq<char>, Option<Seq<char>>),
    Fatal(WorldError),
    Stop,
}

impl View for HostAction {
    type V = HostActionView;

    open spec fn view(&self) -> HostActionView {
        match self {
            HostAction::Broadcast(m) => HostActionView::Broadcast(m@),
            HostAction::ReplyWorld(c) => HostActionView::ReplyWorld(*c),
            HostAction::Post(e) => HostActionView::Post(e@),
            HostAction::Schedule(t, e) => HostActionView::Schedule(*t, e@),
            HostAction::Kick(c, s) => HostActionView::Kick(*c, s@),
            HostAction::LogDisconnect(n, e) => HostActionView::LogDisconnect(
                n@,
                match e {
                    Some(s) => Some(s@),
                    None => None,
                },
            ),
            HostAction::Fatal(e) => HostActionView::Fatal(*e),
            HostAction::Stop => HostActionView::Stop,
        }
    }
}

pub open spec fn actions_view(a: Seq<HostAction>) -> Seq<HostActionView> {
    a.map_values(|x: HostAction| x@)
}

/// The arbiter's state: the registered participants, the authoritative
/// world, and the next id to hand to a remote participant.
pub struct Host {
    /// The registered participants' names, by id.
    pub clients: HashMap<u64, String>,
    pub world: World,
    pub next_client_id: u64,
}

pub struct HostView {
    pub clients: Map<u64, Seq<char>>,
    pub world: WorldView,
    pub next_client_id: u64,
}

/// The names of the registered participants, by id.
pub open spec fn names_view(m: Map<u64, String>) -> Map<u64, Seq<char>> {
    m.map_values(|n: String| n@)
}

impl View for Host {
    type V = HostView;

    open spec fn view(&self) -> HostView {
        HostView {
            clients: names_view(self.clients@),
            world: self.world@,
            next_client_id: self.next_client_id,
        }
    }
}

/// The ids whose queue refused the message, in order.
pub open spec fn refused(o: Seq<(ClientId, bool)>) -> Seq<ClientId>
    decreases o.len(),
{
    if o.len() == 0 {
        Seq::empty()
    } else if o.last().1 {
        refused(o.drop_last())
    } else {
        refused(o.drop_last()).push(o.last().0)
    }
}

/// `m` without the ids of `s`.
pub open spec fn remove_all(m: Map<u64, Seq<char>>, s: Seq<ClientId>) -> Map<u64, Seq<char>>
    decreases s.len(),
{
    if s.len() == 0 {
        m
    } else {
        remove_all(m, s.drop_last()).remove(s.last().0)
    }
}

pub open spec fn kick_reason_shutdown() -> Seq<char> {
    "Server shutting down."@
}

pub open spec fn kick_reason_illegal() -> Seq<char> {
    "Third world error: IllegalEvent"@
}

/// Deferred events become actions: those due now are posted in order, the
/// others scheduled after their delay, in order.
pub open spec fn deferred_actions(d: Seq<Deferred>) -> Seq<HostActionView> {
    d.filter(due_now()).map_values(as_post()) + d.filter(due_later()).map_values(as_schedule())
}

pub open spec fn due_now() -> spec_fn(Deferred) -> bool {
    |p: Deferred| p.0 == 0
}

pub open spec fn due_later() -> spec_fn(Deferred) -> bool {
    |p: Deferred| p.0 != 0
}

pub open spec fn as_post() -> spec_fn(Deferred) -> HostActionView {
    |p: Deferred| HostActionView::Post(p.1)
}

pub open spec fn as_schedule() -> spec_fn(Deferred) -> HostActionView {
    |p: Deferred| HostActionView::Schedule(p.0, p.1)
}

/// The entity of participant `c`'s player, removed when it leaves.
pub open spec fn exit_actions(w: WorldView, c: ClientId) -> Seq<HostActionView> {
    if exists|k: u64| #[trigger] w.entities.contains_key(k) && w.entities[k].kind == EntityKind::Player(c) {
        let k = choose|k: u64|
            #[trigger] w.entities.contains_key(k) && w.entities[k].kind == EntityKind::Player(c) && forall|
                j: u64,
            | #[trigger] w.entities.contains_key(j) && j < k ==> w.entities[j].kind != EntityKind::Player(c);
        seq![HostActionView::Post(WorldEventView::DeleteEntity(crate::world::EntityId(k)))]
    } else {
        Seq::empty()
    }
}

/// One step of the arbiter.
pub open spec fn spec_host_step(h: HostView, ev: ClientEventView) -> (HostView, Seq<HostActionView>) {
    match ev {
        ClientEventView::ClientConnected(c, name) => (
            HostView { clients: h.clients.insert(c.0, name), world: h.world, next_client_id: h.next_client_id },
            seq![
                HostActionView::Broadcast(ToClientEventView::NewClientId(c)),
                HostActionView::ReplyWorld(c),
                HostActionView::Post(WorldEventView::CreateEntity(player_entity(c))),
            ],
        ),
        ClientEventView::ClientDisconnect(c, err) => (
            HostView { clients: h.clients.remove(c.0), world: h.world, next_client_id: h.next_client_id },
            exit_actions(h.world, c) + seq![
                HostActionView::Broadcast(ToClientEventView::RemoveClientId(c)),
                HostActionView::LogDisconnect(
                    if h.clients.contains_key(c.0) {
                        h.clients[c.0]
                    } else {
                        Seq::empty()
                    },
                    err,
                ),
            ],
        ),
        ClientEventView::WorldEvent(eid, sender, wev) => {
            if sender.is_none() && !well_formed_event(h.world, wev) {
                (h, seq![HostActionView::Fatal(WorldError::IllegalEvent), HostActionView::Stop])
            } else {
                match spec_handle(h.world, sender, wev) {
                    Ok((w2, d)) => (
                        HostView { clients: h.clients, world: w2, next_client_id: h.next_client_id },
                        seq![HostActionView::Broadcast(ToClientEventView::WorldEvent(eid, sender, wev))]
                            + deferred_actions(d),
                    ),
                    Err(e) => match sender {
                        Some(c) => (
                            HostView {
                                clients: h.clients.remove(c.0),
                                world: h.world,
                                next_client_id: h.next_client_id,
                            },
                            seq![HostActionView::Kick(c, kick_reason_illegal())],
                        ),
                        None => (h, seq![HostActionView::Fatal(e), HostActionView::Stop]),
                    },
                }
            }
        },
        ClientEventView::Shutdown => (
            h,
            seq![
                HostActionView::Broadcast(ToClientEventView::Kick(kick_reason_shutdown())),
                HostActionView::Stop,
            ],
        ),
    }
}

impl Host {
    pub open spec fn wf(&self) -> bool {
        self.world.wf()
    }

    /// An arbiter over `world` with nobody registered; remote ids start at 1.
    pub fn new(world: World) -> (r: Host)
        requires
            world.wf(),
        ensures
            r.wf(),
            r@.clients == Map::<u64, Seq<char>>::empty(),
            r@.world == world@,
            r@.next_client_id == 1,
    {
        let r = Host { clients: HashMap::new(), world, next_client_id: 1 };
        assert(r@.clients =~= Map::<u64, Seq<char>>::empty());
        r
    }

    /// The next id for a remote participant; `None` once they are used up.
    pub fn assign_client_id(&mut self) -> (r: Option<ClientId>)
        ensures
            old(self).next_client_id < u64::MAX ==> r == Some(ClientId(old(self).next_client_id))
                && final(self).next_client_id == old(self).next_client_id + 1,
            old(self).next_client_id == u64::MAX ==> r.is_none() && final(self).next_client_id
                == old(self).next_client_id,
            final(self).clients == old(self).clients,
            final(self).world == old(self).world,
    {
        if self.next_client_id == u64::MAX {
            return None;
        }
        let id = ClientId(self.next_client_id);
        self.next_client_id = self.next_client_id + 1;
        Some(id)
    }

    /// Whether participant `id` is registered.
    pub fn has_client(&self, id: ClientId) -> (r: bool)
        ensures
            r == self@.clients.contains_key(id.0),
    {
        broadcast use vstd::std_specs::hash::group_hash_axioms;

        self.clients.contains_key(&id.0)
    }

    /// Registers participant `id` under `name`, replacing an earlier entry.
    pub fn add_client(&mut self, id: ClientId, name: String)
        requires
            old(self).wf(),
        ensures
            final(self).wf(),
            final(self)@.clients == old(self)@.clients.insert(id.0, name@),
            final(self).world == old(self).world,
            final(self).next_client_id == old(self).next_client_id,
    {
        broadcast use vstd::std_specs::hash::group_hash_axioms;

        let ghost n = name@;
        self.clients.insert(id.0, name);
        assert(self@.clients =~= old(self)@.clients.insert(id.0, n));
    }

    /// Unregisters participant `id`, handing back its name if it was there.
    pub fn remove_client(&mut self, id: ClientId) -> (r: Option<String>)
        requires
            old(self).wf(),
        ensures
            final(self).wf(),
            final(self)@.clients == old(self)@.clients.remove(id.0),
            old(self)@.clients.contains_key(id.0) ==> r.is_some() && r.unwrap()@ == old(self)@.clients[id.0],
            !old(self)@.clients.contains_key(id.0) ==> r.is_none(),
            final(self).world == old(self).world,
            final(self).next_client_id == old(self).next_client_id,
    {
        broadcast use vstd::std_specs::hash::group_hash_axioms;

        let r = self.clients.remove(&id.0);
        assert(self@.clients =~= old(self)@.clients.remove(id.0));
        r
    }

    /// Unregisters every participant whose queue refused a broadcast, given
    /// each participant's id and whether its queue took the message; hands
    /// back the evicted ids, in order.
    pub fn evict(&mut self, outcomes: Vec<(ClientId, bool)>) -> (r: Vec<ClientId>)
        requires
            old(self).wf(),
        ensures
            final(self).wf(),
            r@ == refused(outcomes@),
            final(self)@.clients == remove_all(old(self)@.clients, refused(outcomes@)),
            final(self).world == old(self).world,
            final(self).next_client_id == old(self).next_client_id,
    {
        let mut out: Vec<ClientId> = Vec::new();
        let mut i: usize = 0;
        while i < outcomes.len()
            invariant
                i <= outcomes@.len(),
                self.wf(),
                out@ == refused(outcomes@.take(i as int)),
                self@.clients == remove_all(old(self)@.clients, out@),
                self.world == old(self).world,
                self.next_client_id == old(self).next_client_id,
            decreases outcomes@.len() - i,
        {
            let (id, delivered) = outcomes[i];
            proof {
                assert(outcomes@.take(i + 1).drop_last() =~= outcomes@.take(i as int));
            }
            if !delivered {
                let ghost before = out@;
                self.remove_client(id);
                out.push(id);
                assert(out@.drop_last() =~= before);
            }
            i = i + 1;
        }
        assert(outcomes@.take(i as int) =~= outcomes@);
        out
    }

    /// One step of the arbiter: updates the registry and the world for `ev`
    /// and lists the actions to perform, in order.
    pub fn handle(&mut self, ev: ClientEvent) -> (r: Vec<HostAction>)
        requires
            old(self).wf(),
        ensures
            final(self).wf(),
            (final(self)@, actions_view(r@)) == spec_host_step(old(self)@, ev@),
    {
        match ev {
            ClientEvent::ClientConnected(c, name) => self.on_connected(c, name),
            ClientEvent::ClientDisconnect(c, err) => self.on_disconnect(c, err),
            ClientEvent::WorldEvent(eid, sender, wev) => self.on_world_event(eid, sender, wev),
            ClientEvent::Shutdown() => {
                let mut out: Vec<HostAction> = Vec::new();
                out.push(HostAction::Broadcast(ToClientEvent::Kick("Server shutting down.".to_owned())));
                out.push(HostAction::Stop);
                proof {
                    reveal_strlit("Server shutting down.");
                }
                assert(actions_view(out@) =~= spec_host_step(old(self)@, ev@).1);
                out
            },
        }
    }

    fn on_connected(&mut self, c: ClientId, name: String) -> (r: Vec<HostAction>)
        requires
            old(self).wf(),
        ensures
            final(self).wf(),
            (final(self)@, actions_view(r@)) == spec_host_step(
                old(self)@,
                ClientEventView::ClientConnected(c, name@),
            ),
    {
        let ghost ev = ClientEventView::ClientConnected(c, name@);
        let mut out: Vec<HostAction> = Vec::new();
        out.push(HostAction::Broadcast(ToClientEvent::NewClientId(c)));
        self.add_client(c, name);
        out.push(HostAction::ReplyWorld(c));
        let spawn = self.world.create_player_spawn_event(c);
        out.push(HostAction::Post(spawn));
        assert(actions_view(out@) =~= spec_host_step(old(self)@, ev).1);
        out
    }

    fn on_disconnect(&mut self, c: ClientId, err: Option<String>) -> (r: Vec<HostAction>)
        requires
            old(self).wf(),
        ensures
            final(self).wf(),
            (final(self)@, actions_view(r@)) == spec_host_step(
                old(self)@,
                ClientEventView::ClientDisconnect(c, opt_str_view(err)),
            ),
    {
        let ghost ev = ClientEventView::ClientDisconnect(c, opt_str_view(err));
        let mut out: Vec<HostAction> = Vec::new();
        let name = match self.remove_client(c) {
            Some(n) => n,
            None => String::new(),
        };
        match self.world.create_player_exit_event(c) {
            Some(exit) => {
                proof {
                    let w = self.world@;
                    let k = choose|k: u64| #[trigger] w.entities.contains_key(k)
                        && w.entities[k].kind == EntityKind::Player(c)
                        && exit@ == WorldEventView::DeleteEntity(crate::world::EntityId(k))
                        && forall|j: u64| #[trigger] w.entities.contains_key(j) && j < k
                            ==> w.entities[j].kind != EntityKind::Player(c);
                    let k2 = choose|k: u64|
                        #[trigger] w.entities.contains_key(k) && w.entities[k].kind == EntityKind::Player(c) && forall|
                            j: u64,
                        | #[trigger] w.entities.contains_key(j) && j < k ==> w.entities[j].kind != EntityKind::Player(c);
                    if k < k2 {
                        assert(w.entities.contains_key(k) && k < k2);
                    }
                    if k2 < k {
                        assert(w.entities.contains_key(k2) && k2 < k);
                    }
                    assert(k == k2);
                    assert(exit_actions(w, c) == seq![HostActionView::Post(exit@)]);
                }
                out.push(HostAction::Post(exit));
            },
            None => {},
        }
        out.push(HostAction::Broadcast(ToClientEvent::RemoveClientId(c)));
        out.push(HostAction::LogDisconnect(name, err));
        assert(actions_view(out@) =~= spec_host_step(old(self)@, ev).1);
        out
    }

    fn on_world_event(&mut self, eid: EventId, sender: Option<ClientId>, wev: WorldEvent) -> (r: Vec<
        HostAction,
    >)
        requires
            old(self).wf(),
        ensures
            final(self).wf(),
            (final(self)@, actions_view(r@)) == spec_host_step(
                old(self)@,
                ClientEventView::WorldEvent(eid, sender, wev@),
            ),
    {
        let ghost ev = ClientEventView::WorldEvent(eid, sender, wev@);
        let mut out: Vec<HostAction> = Vec::new();
        if sender.is_none() && !self.well_formed(&wev) {
            out.push(HostAction::Fatal(WorldError::IllegalEvent));
            out.push(HostAction::Stop);
            assert(actions_view(out@) =~= spec_host_step(old(self)@, ev).1);
            return out;
        }
        let echo = wev.copy();
        match self.world.handle_event(sender, wev) {
            Ok((next, deferred)) => {
                out.push(HostAction::Broadcast(ToClientEvent::WorldEvent(eid, sender, echo)));
                self.world = next;
                let ghost first = actions_view(out@);
                let ghost dv = deferred_view(deferred@);
                let mut rest = deferred_to_actions(deferred);
                out.append(&mut rest);
                assert(actions_view(out@) =~= first + deferred_actions(dv));
                assert(actions_view(out@) =~= spec_host_step(old(self)@, ev).1);
            },
            Err(e) => {
                match sender {
                    Some(c) => {
                        self.remove_client(c);
                        out.push(HostAction::Kick(c, "Third world error: IllegalEvent".to_owned()));
                        proof {
                            reveal_strlit("Third world error: IllegalEvent");
                        }
                    },
                    None => {
                        out.push(HostAction::Fatal(e));
                        out.push(HostAction::Stop);
                    },
                }
                assert(actions_view(out@) =~= spec_host_step(old(self)@, ev).1);
            },
        }
        out
    }

    /// Whether the host may apply `ev` itself without breaking the world's
    /// assumptions.
    pub fn well_formed(&self, ev: &WorldEvent) -> (r: bool)
        ensures
            r == well_formed_event(self@.world, ev@),
    {
        crate::predictor::well_formed_exec(&self.world, ev)
    }
}

/// Whether the entity's bag, if any, is well formed.
pub fn entity_ok_exec(e: &crate::world::Entity) -> (r: bool)
    ensures
        r == crate::world::entity_ok(e@),
{
    match &e.inventory {
        None => true,
        Some(inv) => {
            assert(e@.inventory == Some(inv@));
            let mut i: usize = 0;
            let mut total: u128 = 0;
            while i < inv.items.len()
                invariant
                    i <= inv.items@.len(),
                    e@.inventory == Some(inv@),
                    total == crate::inventory::sum_counts(inv.items@.take(i as int)),
                    total <= i * 0x1_0000_0000_0000_0000,
                    forall|j: int| 0 <= j < i ==> #[trigger] inv.items@[j].1 >= 1,
                decreases inv.items@.len() - i,
            {
                if inv.items[i].1 < 1 {
                    assert(!(inv.items@[i as int].1 >= 1));
                    assert(e@.inventory == Some(inv@));
                    assert(!inv@.wf());
                    return false;
                }
                proof {
                    assert(inv.items@.take(i + 1).drop_last() =~= inv.items@.take(i as int));
                }
                total = total + inv.items[i].1 as u128;
                i = i + 1;
            }
            assert(inv.items@.take(i as int) =~= inv.items@);
            total <= inv.cap as u128
        },
    }
}

/// The actions for a transition's deferred events: those due now are
/// posted, in order; the others scheduled, in order.
fn deferred_to_actions(d: Vec<(u64, WorldEvent)>) -> (r: Vec<HostAction>)
    ensures
        actions_view(r@) == deferred_actions(deferred_view(d@)),
{
    let ghost dv = deferred_view(d@);
    let mut posts: Vec<HostAction> = Vec::new();
    let mut timed: Vec<HostAction> = Vec::new();
    let mut i: usize = 0;
    while i < d.len()
        invariant
            i <= d@.len(),
            dv == deferred_view(d@),
            actions_view(posts@) == dv.take(i as int).filter(due_now()).map_values(as_post()),
            actions_view(timed@) == dv.take(i as int).filter(due_later()).map_values(as_schedule()),
        decreases d@.len() - i,
    {
        let (t, ev) = (d[i].0, d[i].1.copy());
        proof {
            reveal(Seq::filter);
            assert(dv.take(i + 1).drop_last() =~= dv.take(i as int));
            assert(dv.take(i + 1).last() == (t, ev@));
        }
        let ghost p0 = actions_view(posts@);
        let ghost t0 = actions_view(timed@);
        if t == 0 {
            posts.push(HostAction::Post(ev));
            assert(actions_view(posts@) =~= p0.push(HostActionView::Post(ev@)));
            assert(actions_view(timed@) =~= t0);
        } else {
            timed.push(HostAction::Schedule(t, ev));
            assert(actions_view(timed@) =~= t0.push(HostActionView::Schedule(t, ev@)));
            assert(actions_view(posts@) =~= p0);
        }
        i = i + 1;
        assert(actions_view(posts@) =~= dv.take(i as int).filter(due_now()).map_values(as_post()));
        assert(actions_view(timed@) =~= dv.take(i as int).filter(due_later()).map_values(as_schedule()));
    }
    assert(dv.take(i as int) =~= dv);
    posts.append(&mut timed);
    assert(actions_view(posts@) =~= deferred_actions(dv));
    posts
}

} // verus!
