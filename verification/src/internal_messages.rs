//! Requests that the server's connection and HTTP handling pass to the game.

use crate::incoming_websocket_messages::IncomingWebsocketMessage;
use vstd::prelude::*;

verus! {

/// A player's websocket message, with the player who sent it.
pub struct IncomingMessageInternal {
    pub initiator: u128,
    pub incoming: IncomingWebsocketMessage,
}

/// A player's websocket went away.
pub struct PlayerDisconnected {
    pub id: u128,
}

/// A new player with this name and identifier joins the lobby.
pub struct RegisterPlayer {
    pub id: u128,
    pub name: String,
}

/// Tells a player's websocket to close.
pub struct CloseWebsocket {}

/// A websocket is now open for the player with this identifier.
pub struct RegisterPlayerWebsocket {
    pub id: u128,
}

pub struct StartGame {}

pub struct ResetGame {}

pub struct HasGameStarted {}

pub struct Disconnected {}

/// The meeting's voting time is up.
pub struct EndVoting {}

pub struct StartMeeting {}

pub struct GetNextUUID {}

pub struct PlayerExists {
    pub id: u128,
}

pub struct GetPlayerColor {
    pub id: u128,
}

} // verus!
