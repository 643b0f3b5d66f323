//! What a participant's session hands the arbiter for each message it
//! receives.
use vstd::prelude::*;
use crate::host::{ClientEvent, ClientEventView};
use crate::protocol::{ClientId, FromClientEvent, FromClientEventView};

verus! {

/// The arbiter's event for a message of remote participant `id`; `None`
/// when the participant leaves, which ends its inbound loop.
pub open spec fn spec_inbound(id: ClientId, msg: FromClientEventView) -> Option<ClientEventView> {
    match msg {
        FromClientEventView::Disconnect => None,
        FromClientEventView::PlayerEvent(eid, ev) => Some(ClientEventView::WorldEvent(eid, Some(id), ev)),
    }
}

/// The arbiter's event for a message of the participant colocated with the
/// host: its leaving shuts the host down.
pub open spec fn spec_local_inbound(id: ClientId, msg: FromClientEventView) -> ClientEventView {
    match msg {
        FromClientEventView::Disconnect => ClientEventView::Shutdown,
        FromClientEventView::PlayerEvent(eid, ev) => ClientEventView::WorldEvent(eid, Some(id), ev),
    }
}

pub fn inbound_event(id: ClientId, msg: FromClientEvent) -> (r: Option<ClientEvent>)
    ensures
        match r {
            Some(e) => spec_inbound(id, msg@) == Some(e@),
            None => spec_inbound(id, msg@).is_none(),
        },
{
    match msg {
        FromClientEvent::Disconnect() => None,
        FromClientEvent::PlayerEvent(eid, ev) => Some(ClientEvent::WorldEvent(eid, Some(id), ev)),
    }
}

pub fn local_inbound_event(id: ClientId, msg: FromClientEvent) -> (r: ClientEvent)
    ensures
        r@ == spec_local_inbound(id, msg@),
{
    match msg {
        FromClientEvent::Disconnect() => ClientEvent::Shutdown(),
        FromClientEvent::PlayerEvent(eid, ev) => ClientEvent::WorldEvent(eid, Some(id), ev),
    }
}

/// The id of the participant colocated with the host.
pub const LOCAL_CLIENT: u64 = 0;

/// Capacity of a session's outbound queue.
pub const OUTBOUND_CAPACITY: usize = 1024;

/// The host's listening port.
pub const HOST_PORT: u16 = 4921;

} // verus!
