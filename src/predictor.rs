//! The participant's predictor: an agreed world confirmed by the host and a
//! speculative one that also holds the participant's unconfirmed actions.
use vstd::prelude::*;
use crate::protocol::{ClientId, EventId, FromClientEvent, FromClientEventView, ToClientEvent};
use crate::world::{
    EntityId, EntityKind, World, WorldEvent, WorldEventView, WorldView, spec_handle, well_formed_event,
};

verus! {

/// An action of this participant not yet confirmed: when it was issued (in
/// nanoseconds since start), its event id, its sender and the event.
pub struct Awaiting {
    pub offset: u64,
    pub event_id: EventId,
    pub owner: Option<ClientId>,
    pub event: WorldEvent,
}

pub type AwaitingView = (u64, EventId, Option<ClientId>, WorldEventView);

impl View for Awaiting {
    type V = AwaitingView;

    open spec fn view(&self) -> AwaitingView {
        (self.offset, self.event_id, self.owner, self.event@)
    }
}

pub open spec fn awaiting_view(s: Seq<Awaiting>) -> Seq<AwaitingView> {
    s.map_values(|a: Awaiting| a@)
}

/// What the predictor asks its runner to do.
pub enum PredictorAction {
    /// Send this to the host.
    Send(FromClientEvent),
    /// The participant's own player is known: start taking its input.
    StartInput(EntityId),
    /// Draw the speculative world.
    Render,
    /// The host sent the participant away, with this reason; stop.
    Kicked(String),
    /// The participant's player was deleted; stop.
    Died,
    /// The host sent an event that cannot apply to the agreed world; stop.
    ProtocolViolation,
}

pub enum PredictorActionView {
    Send(FromClientEventView),
    StartInput(EntityId),
    Render,
    Kicked(Seq<char>),
    Died,
    ProtocolViolation,
}

impl View for PredictorAction {
    type V = PredictorActionView;

    open spec fn view(&self) -> PredictorActionView {
        match self {
            PredictorAction::Send(m) => PredictorActionView::Send(m@),
            PredictorAction::StartInput(e) => PredictorActionView::StartInput(*e),
            PredictorAction::Render => PredictorActionView::Render,
            PredictorAction::Kicked(s) => PredictorActionView::Kicked(s@),
            PredictorAction::Died => PredictorActionView::Died,
            PredictorAction::ProtocolViolation => PredictorActionView::ProtocolViolation,
        }
    }
}

pub open spec fn pactions_view(s: Seq<PredictorAction>) -> Seq<PredictorActionView> {
    s.map_values(|a: PredictorAction| a@)
}

/// The world after `ev` from `sender`, or `w` itself where the transition
/// does not apply.
pub open spec fn apply_or_keep(w: WorldView, sender: Option<ClientId>, ev: WorldEventView) -> WorldView {
    if (sender.is_some() || well_formed_event(w, ev)) && spec_handle(w, sender, ev) is Ok {
        match spec_handle(w, sender, ev) {
            Ok((w2, _)) => w2,
            Err(_) => w,
        }
    } else {
        w
    }
}

/// `w` with every entry of `s` issued at or before `now` applied, in order.
pub open spec fn replay(w: WorldView, s: Seq<AwaitingView>, now: u64) -> WorldView
    decreases s.len(),
{
    if s.len() == 0 {
        w
    } else {
        let w1 = replay(w, s.drop_last(), now);
        let e = s.last();
        if e.0 <= now {
            apply_or_keep(w1, e.2, e.3)
        } else {
            w1
        }
    }
}

/// Drops the entries before the first one with id `eid`.
pub open spec fn skip_until(s: Seq<AwaitingView>, eid: EventId) -> Seq<AwaitingView>
    decreases s.len(),
{
    if s.len() == 0 || s[0].1 == eid {
        s
    } else {
        skip_until(s.drop_first(), eid)
    }
}

/// Drops the leading entries with id `eid`.
pub open spec fn skip_same(s: Seq<AwaitingView>, eid: EventId) -> Seq<AwaitingView>
    decreases s.len(),
{
    if s.len() == 0 || s[0].1 != eid {
        s
    } else {
        skip_same(s.drop_first(), eid)
    }
}

/// Drops the leading entries issued, lag included, before the host's time `t`.
pub open spec fn skip_stale(s: Seq<AwaitingView>, t: u64, delta: u64) -> Seq<AwaitingView>
    decreases s.len(),
{
    if s.len() == 0 || !(s[0].0 + delta < t) {
        s
    } else {
        skip_stale(s.drop_first(), t, delta)
    }
}

/// The entries still unconfirmed once the host's event `eid` from `owner`,
/// stamped `t`, arrives.
pub open spec fn purge(s: Seq<AwaitingView>, me: ClientId, owner: Option<ClientId>, eid: EventId, t: u64, delta: u64) -> Seq<
    AwaitingView,
> {
    if owner == Some(me) {
        skip_same(skip_until(s, eid), eid)
    } else {
        skip_stale(s, t, delta)
    }
}

/// The participant's state.
pub struct Predictor {
    pub me: ClientId,
    pub agreed: World,
    pub speculative: World,
    pub self_entity: Option<EntityId>,
    pub awaiting: Vec<Awaiting>,
    /// Estimated lag of the host, in nanoseconds.
    pub est_delta: u64,
}

impl Predictor {
    pub open spec fn wf(&self) -> bool {
        self.agreed.wf() && self.speculative.wf()
    }

    /// A predictor for participant `me`, both worlds starting from `world`.
    pub fn new(me: ClientId, world: World) -> (r: Predictor)
        requires
            world.wf(),
        ensures
            r.wf(),
            r.me == me,
            r.agreed@ == world@,
            r.speculative@ == world@,
            r.self_entity.is_none(),
            r.awaiting@.len() == 0,
            r.est_delta == 0,
    {
        let speculative = world.snapshot();
        Predictor { me, agreed: world, speculative, self_entity: None, awaiting: Vec::new(), est_delta: 0 }
    }
}

/// Applies `ev` from `sender` where it applies; otherwise leaves `w`.
pub fn apply_or_keep_exec(w: World, sender: Option<ClientId>, ev: WorldEvent) -> (r: World)
    requires
        w.wf(),
    ensures
        r.wf(),
        r@ == apply_or_keep(w@, sender, ev@),
{
    if sender.is_none() && !well_formed_exec(&w, &ev) {
        return w;
    }
    match w.handle_event(sender, ev) {
        Ok((w2, _)) => w2,
        Err(_) => w,
    }
}

/// Whether the host's own event `ev` meets the world's assumptions.
pub fn well_formed_exec(w: &World, ev: &WorldEvent) -> (r: bool)
    ensures
        r == well_formed_event(w@, ev@),
{
    match ev {
        WorldEvent::PlayerAction(id, _) => w.entity(*id).is_some(),
        WorldEvent::SpawnEntity(_, e) => crate::host::entity_ok_exec(e),
        WorldEvent::DeleteEntity(_) => true,
        WorldEvent::CreateEntity(_) => w.next_entity_id.0 < u64::MAX,
        WorldEvent::Enter(id, _) => w.entity(*id).is_some(),
    }
}

/// The player entity of participant `me` that `ev` spawns, if it does.
pub open spec fn spawned_self(me: ClientId, owner: Option<ClientId>, ev: WorldEventView) -> Option<EntityId> {
    match ev {
        WorldEventView::SpawnEntity(id, e) => if owner.is_none() && e.kind == EntityKind::Player(me) {
            Some(id)
        } else {
            None
        },
        _ => None,
    }
}

/// `ev` deletes the entity `s`.
pub open spec fn deletes(ev: WorldEventView, s: Option<EntityId>) -> bool {
    match ev {
        WorldEventView::DeleteEntity(id) => s == Some(id),
        _ => false,
    }
}

impl Predictor {
    /// A local action: sent to the host, remembered until confirmed, and
    /// applied at once to the speculative world.
    pub fn on_local(&mut self, ev: WorldEvent, eid: EventId, now: u64) -> (r: Vec<PredictorAction>)
        requires
            old(self).wf(),
        ensures
            final(self).wf(),
            pactions_view(r@) == seq![
                PredictorActionView::Send(FromClientEventView::PlayerEvent(eid, ev@)),
            ],
            awaiting_view(final(self).awaiting@) == awaiting_view(old(self).awaiting@).push(
                (now, eid, Some(old(self).me), ev@),
            ),
            final(self).speculative@ == apply_or_keep(old(self).speculative@, Some(old(self).me), ev@),
            final(self).agreed@ == old(self).agreed@,
            final(self).self_entity == old(self).self_entity,
            final(self).me == old(self).me,
            final(self).est_delta == old(self).est_delta,
    {
        let mut out: Vec<PredictorAction> = Vec::new();
        out.push(PredictorAction::Send(FromClientEvent::PlayerEvent(eid, ev.copy())));
        let ghost aw = awaiting_view(self.awaiting@);
        self.awaiting.push(Awaiting { offset: now, event_id: eid, owner: Some(self.me), event: ev.copy() });
        assert(awaiting_view(self.awaiting@) =~= aw.push((now, eid, Some(self.me), ev@)));
        let spec_world = self.speculative.snapshot();
        self.speculative = apply_or_keep_exec(spec_world, Some(self.me), ev);
        assert(pactions_view(out@) =~= seq![
            PredictorActionView::Send(FromClientEventView::PlayerEvent(eid, ev@)),
        ]);
        out
    }

    /// A message of the host, stamped `t` by the host, arriving at `now`
    /// (both in nanoseconds).
    pub fn on_server(&mut self, t: u64, msg: ToClientEvent, now: u64) -> (r: Vec<PredictorAction>)
        requires
            old(self).wf(),
        ensures
            final(self).wf(),
            final(self).me == old(self).me,
            final(self).est_delta == old(self).est_delta,
            match msg {
                ToClientEvent::NewClientId(_) | ToClientEvent::RemoveClientId(_) => {
                    &&& r@.len() == 0
                    &&& final(self).agreed@ == old(self).agreed@
                    &&& final(self).speculative@ == old(self).speculative@
                    &&& awaiting_view(final(self).awaiting@) == awaiting_view(old(self).awaiting@)
                },
                ToClientEvent::Kick(reason) => pactions_view(r@) == seq![PredictorActionView::Kicked(reason@)],
                ToClientEvent::WorldEvent(eid, owner, ev) => {
                    let applies = (owner.is_some() || well_formed_event(old(self).agreed@, ev@))
                        && spec_handle(old(self).agreed@, owner, ev@) is Ok;
                    let agreed2 = apply_or_keep(old(self).agreed@, owner, ev@);
                    let spawned = if old(self).self_entity.is_none() {
                        spawned_self(old(self).me, owner, ev@)
                    } else {
                        None
                    };
                    let self2 = if spawned.is_some() { spawned } else { old(self).self_entity };
                    let start = if spawned.is_some() {
                        seq![PredictorActionView::StartInput(spawned.unwrap())]
                    } else {
                        Seq::empty()
                    };
                    let kept = purge(awaiting_view(old(self).awaiting@), old(self).me, owner, eid, t, old(self).est_delta);
                    if !applies {
                        pactions_view(r@) == seq![PredictorActionView::ProtocolViolation]
                    } else if deletes(ev@, self2) {
                        &&& final(self).agreed@ == agreed2
                        &&& final(self).self_entity == self2
                        &&& pactions_view(r@) == start + seq![
                            PredictorActionView::Send(FromClientEventView::Disconnect),
                            PredictorActionView::Died,
                        ]
                    } else {
                        &&& final(self).agreed@ == agreed2
                        &&& final(self).self_entity == self2
                        &&& awaiting_view(final(self).awaiting@) == kept
                        &&& final(self).speculative@ == replay(agreed2, kept, now)
                        &&& pactions_view(r@) == start + (if self2.is_some() {
                            seq![PredictorActionView::Render]
                        } else {
                            Seq::empty()
                        })
                    }
                },
            },
    {
        let mut out: Vec<PredictorAction> = Vec::new();
        match msg {
            ToClientEvent::NewClientId(_) => {},
            ToClientEvent::RemoveClientId(_) => {},
            ToClientEvent::Kick(reason) => {
                out.push(PredictorAction::Kicked(reason));
                assert(pactions_view(out@) =~= seq![PredictorActionView::Kicked(reason@)]);
            },
            ToClientEvent::WorldEvent(eid, owner, ev) => {
                if owner.is_none() && !well_formed_exec(&self.agreed, &ev) {
                    out.push(PredictorAction::ProtocolViolation);
                    assert(pactions_view(out@) =~= seq![PredictorActionView::ProtocolViolation]);
                    return out;
                }
                let spawned: Option<EntityId> = match (&self.self_entity, owner, &ev) {
                    (None, None, WorldEvent::SpawnEntity(id, e)) => if e.is_player(self.me) {
                        Some(*id)
                    } else {
                        None
                    },
                    _ => None,
                };
                let deleted: Option<EntityId> = match &ev {
                    WorldEvent::DeleteEntity(id) => Some(*id),
                    _ => None,
                };
                match self.agreed.handle_event(owner, ev) {
                    Err(_) => {
                        out.push(PredictorAction::ProtocolViolation);
                        assert(pactions_view(out@) =~= seq![PredictorActionView::ProtocolViolation]);
                        return out;
                    },
                    Ok((w2, _)) => {
                        self.agreed = w2;
                    },
                }
                match spawned {
                    Some(id) => {
                        self.self_entity = Some(id);
                        out.push(PredictorAction::StartInput(id));
                    },
                    None => {},
                }
                let ghost start = pactions_view(out@);
                let dies = match (deleted, self.self_entity) {
                    (Some(d), Some(s)) => d == s,
                    _ => false,
                };
                if dies {
                    out.push(PredictorAction::Send(FromClientEvent::Disconnect()));
                    out.push(PredictorAction::Died);
                    assert(pactions_view(out@) =~= start + seq![
                        PredictorActionView::Send(FromClientEventView::Disconnect),
                        PredictorActionView::Died,
                    ]);
                    return out;
                }
                self.purge_awaiting(owner, eid, t);
                self.rebuild(now);
                if self.self_entity.is_some() {
                    out.push(PredictorAction::Render);
                    assert(pactions_view(out@) =~= start + seq![PredictorActionView::Render]);
                } else {
                    assert(pactions_view(out@) =~= start + Seq::empty());
                }
            },
        }
        out
    }

    /// Drops the entries the host's event `eid` from `owner`, stamped `t`,
    /// confirms or makes stale.
    fn purge_awaiting(&mut self, owner: Option<ClientId>, eid: EventId, t: u64)
        ensures
            awaiting_view(final(self).awaiting@) == purge(
                awaiting_view(old(self).awaiting@),
                old(self).me,
                owner,
                eid,
                t,
                old(self).est_delta,
            ),
            final(self).agreed == old(self).agreed,
            final(self).speculative == old(self).speculative,
            final(self).self_entity == old(self).self_entity,
            final(self).me == old(self).me,
            final(self).est_delta == old(self).est_delta,
    {
        let ghost s = awaiting_view(self.awaiting@);
        let n = self.awaiting.len();
        let mut i: usize = 0;
        let own = match owner {
            Some(c) => c == self.me,
            None => false,
        };
        assert(s.subrange(0, n as int) =~= s);
        if own {
            loop
                invariant
                    i <= n,
                    n == self.awaiting@.len(),
                    s == awaiting_view(self.awaiting@),
                    skip_until(s, eid) == skip_until(s.subrange(i as int, n as int), eid),
                ensures
                    i <= n,
                    i == n || s[i as int].1 == eid,
                    skip_until(s, eid) == skip_until(s.subrange(i as int, n as int), eid),
                decreases n - i,
            {
                if i >= n || self.awaiting[i].event_id == eid {
                    break;
                }
                assert(s.subrange(i as int, n as int).drop_first() =~= s.subrange(i + 1, n as int));
                i = i + 1;
            }
            assert(s.subrange(i as int, n as int) =~= skip_until(s, eid)) by {
                if i < n {
                    assert(s.subrange(i as int, n as int)[0] == s[i as int]);
                }
            }
            let ghost mid = i;
            loop
                invariant
                    mid <= i <= n,
                    n == self.awaiting@.len(),
                    s == awaiting_view(self.awaiting@),
                    skip_same(skip_until(s, eid), eid) == skip_same(s.subrange(i as int, n as int), eid),
                ensures
                    i <= n,
                    i == n || s[i as int].1 != eid,
                    skip_same(skip_until(s, eid), eid) == skip_same(s.subrange(i as int, n as int), eid),
                decreases n - i,
            {
                if i >= n || self.awaiting[i].event_id != eid {
                    break;
                }
                assert(s.subrange(i as int, n as int).drop_first() =~= s.subrange(i + 1, n as int));
                i = i + 1;
            }
            assert(s.subrange(i as int, n as int) =~= skip_same(skip_until(s, eid), eid)) by {
                if i < n {
                    assert(s.subrange(i as int, n as int)[0] == s[i as int]);
                }
            }
        } else {
            loop
                invariant
                    i <= n,
                    n == self.awaiting@.len(),
                    s == awaiting_view(self.awaiting@),
                    skip_stale(s, t, self.est_delta) == skip_stale(s.subrange(i as int, n as int), t, self.est_delta),
                ensures
                    i <= n,
                    i == n || !(s[i as int].0 + self.est_delta < t),
                    skip_stale(s, t, self.est_delta) == skip_stale(s.subrange(i as int, n as int), t, self.est_delta),
                decreases n - i,
            {
                if i >= n || self.awaiting[i].offset as u128 + self.est_delta as u128 >= t as u128 {
                    break;
                }
                assert(s.subrange(i as int, n as int).drop_first() =~= s.subrange(i + 1, n as int));
                i = i + 1;
            }
            assert(s.subrange(i as int, n as int) =~= skip_stale(s, t, self.est_delta)) by {
                if i < n {
                    assert(s.subrange(i as int, n as int)[0] == s[i as int]);
                }
            }
        }
        let tail = self.awaiting.split_off(i);
        self.awaiting = tail;
        assert(awaiting_view(self.awaiting@) =~= s.subrange(i as int, n as int));
    }

    /// Rebuilds the speculative world: the agreed one with every entry
    /// issued at or before `now` applied, in order.
    fn rebuild(&mut self, now: u64)
        requires
            old(self).agreed.wf(),
        ensures
            final(self).wf(),
            final(self).speculative@ == replay(old(self).agreed@, awaiting_view(old(self).awaiting@), now),
            final(self).agreed == old(self).agreed,
            final(self).awaiting == old(self).awaiting,
            final(self).self_entity == old(self).self_entity,
            final(self).me == old(self).me,
            final(self).est_delta == old(self).est_delta,
    {
        let ghost s = awaiting_view(self.awaiting@);
        let mut w = self.agreed.snapshot();
        let mut i: usize = 0;
        while i < self.awaiting.len()
            invariant
                i <= self.awaiting@.len(),
                s == awaiting_view(self.awaiting@),
                w.wf(),
                self.agreed.wf(),
                w@ == replay(self.agreed@, s.take(i as int), now),
            decreases self.awaiting@.len() - i,
        {
            proof {
                assert(s.take(i + 1).drop_last() =~= s.take(i as int));
                assert(s.take(i + 1).last() == self.awaiting@[i as int]@);
            }
            if self.awaiting[i].offset <= now {
                let ev = self.awaiting[i].event.copy();
                w = apply_or_keep_exec(w, self.awaiting[i].owner, ev);
            }
            i = i + 1;
        }
        assert(s.take(i as int) =~= s);
        self.speculative = w;
    }
}

} // verus!
