//! World-synchronisation core of a multiplayer tile game: the authoritative
//! world transition, the tile map, wire framing, the host arbiter's decisions
//! and the participant's predictor.

pub mod codec;
pub mod geom;
pub mod host;
pub mod input;
pub mod level;
pub mod inventory;
pub mod persistent;
pub mod predictor;
pub mod protocol;
pub mod session;
pub mod tile_map;
pub mod world;
pub mod world_laws;

pub use protocol::{gen_event_id, ClientId, EventId, FromClientEvent, LobbyCommand, ToClientEvent};
