use vstd::prelude::*;
use crate::world::{WorldEvent, WorldEventView};

verus! {

/// Commands of the lobby before a game starts.
#[derive(Debug)]
pub enum LobbyCommand {
    StartGame,
}

/// A participant of a hosted session; `0` is the participant colocated with
/// the host, remote ones count up from `1`.
#[derive(Debug, Copy, Clone, Hash, PartialEq, Eq, Structural)]
pub struct ClientId(pub u64);

/// Tags an event so that a participant can match its own speculative event
/// with the host's confirmation.
#[derive(Debug, Copy, Clone, Hash, PartialEq, Eq, Structural)]
pub struct EventId(pub u64);

/// Relies on `rand::random`: a fresh 64-bit value; nothing is promised of it.
#[verifier::external_body]
pub fn gen_event_id() -> (r: EventId) {
    EventId(rand::random::<u64>())
}

/// What a participant sends to the host.
#[derive(Debug, PartialEq, Eq)]
pub enum FromClientEvent {
    /// The participant leaves.
    Disconnect(),
    /// A world event the participant asks the host to apply.
    PlayerEvent(EventId, WorldEvent),
}

/// What a participant's network side hands its game loop.
#[derive(Debug)]
pub enum ServerEvent {
    /// The connection ended, with a description of why.
    LostConnection(String),
    Event(ToClientEvent),
}

/// What the host sends to a participant.
#[derive(Debug, Clone, PartialEq, Eq)]
pub enum ToClientEvent {
    NewClientId(ClientId),
    RemoveClientId(ClientId),
    Kick(String),
    WorldEvent(EventId, Option<ClientId>, WorldEvent),
}

pub enum FromClientEventView {
    Disconnect,
    PlayerEvent(EventId, WorldEventView),
}

impl View for FromClientEvent {
    type V = FromClientEventView;

    open spec fn view(&self) -> FromClientEventView {
        match self {
            FromClientEvent::Disconnect() => FromClientEventView::Disconnect,
            FromClientEvent::PlayerEvent(e, w) => FromClientEventView::PlayerEvent(*e, w@),
        }
    }
}

pub enum ToClientEventView {
    NewClientId(ClientId),
    RemoveClientId(ClientId),
    Kick(Seq<char>),
    WorldEvent(EventId, Option<ClientId>, WorldEventView),
}

impl View for ToClientEvent {
    type V = ToClientEventView;

    open spec fn view(&self) -> ToClientEventView {
        match self {
            ToClientEvent::NewClientId(c) => ToClientEventView::NewClientId(*c),
            ToClientEvent::RemoveClientId(c) => ToClientEventView::RemoveClientId(*c),
            ToClientEvent::Kick(s) => ToClientEventView::Kick(s@),
            ToClientEvent::WorldEvent(e, s, w) => ToClientEventView::WorldEvent(*e, *s, w@),
        }
    }
}

} // verus!
