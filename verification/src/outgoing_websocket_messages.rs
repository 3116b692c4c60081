//! Messages that the server sends to a player's websocket. Player
//! identifiers are the 128-bit values of their UUIDs.

use crate::player::PlayerSerializable;
use vstd::prelude::*;

verus! {

/// Everything the server can tell a player.
#[derive(PartialEq, Debug, Clone)]
pub enum OutgoingWebsocketMessage {
    ChatMessage(ChatMessage),
    AssignedID(u128),
    PlayerStatus(PlayerStatus),
    GameState(GameState),
    PlayerRole(SetRole),
    PlayerDied(PlayerDied),
    SuccessfulKill(u128),
    InvalidAction(String),
    BodyReported(BodyReported),
    EmergencyMeetingCalled(EmergencyMeetingCalled),
    VotingResults(VotingResults),
    GameOver(Winner),
}

#[derive(PartialEq, Debug, Clone)]
pub struct ChatMessage {
    pub contents: String,
}

#[derive(Debug, PartialEq, Eq, Clone, Copy)]
pub enum PlayerConnectionStatus {
    New,
    Disconnected,
    Reconnected,
    Existing,
}

#[derive(PartialEq, Debug, Clone)]
pub struct PlayerStatus {
    pub player: PlayerSerializable,
    pub status: PlayerConnectionStatus,
}

#[derive(Debug, PartialEq, Eq, Clone, Copy)]
pub enum GameStateEnum {
    Lobby,
    InGame,
    Reset,
}

#[derive(PartialEq, Eq, Debug, Clone, Copy)]
pub struct GameState {
    pub state: GameStateEnum,
}

#[derive(Debug, Clone, Copy, PartialEq, Eq)]
pub enum RoleAssignment {
    Imposter,
    Crewmate,
}

#[derive(PartialEq, Eq, Debug, Clone, Copy)]
pub struct SetRole {
    pub role: RoleAssignment,
    pub id: u128,
}

#[derive(PartialEq, Eq, Debug, Clone, Copy)]
pub struct PlayerDied {
    pub killer: u128,
}

#[derive(PartialEq, Eq, Debug, Clone, Copy)]
pub struct BodyReported {
    pub corpse: u128,
    pub initiator: u128,
}

#[derive(PartialEq, Eq, Debug, Clone, Copy)]
pub struct EmergencyMeetingCalled {
    pub initiator: u128,
}

#[derive(Clone, Copy, PartialEq, Eq, Debug)]
pub enum Winner {
    Imposters,
    Crewmates,
}

#[derive(PartialEq, Eq, Debug, Clone, Copy)]
pub struct VotingResults {
    pub ejected_player: Option<u128>,
}

/// A message meant for one player.
#[derive(PartialEq, Debug, Clone)]
pub struct ForwardedOutgoingWebsocketMessage {
    pub destination: u128,
    pub msg: OutgoingWebsocketMessage,
}

impl OutgoingWebsocketMessage {
    /// A copy of the message, equal to it.
    pub fn duplicate(&self) -> (r: Self)
        ensures
            r == *self,
    {
        match self {
            OutgoingWebsocketMessage::ChatMessage(m) => OutgoingWebsocketMessage::ChatMessage(
                ChatMessage { contents: m.contents.clone() },
            ),
            OutgoingWebsocketMessage::AssignedID(id) => OutgoingWebsocketMessage::AssignedID(*id),
            OutgoingWebsocketMessage::PlayerStatus(s) => OutgoingWebsocketMessage::PlayerStatus(
                PlayerStatus { player: s.player.duplicate(), status: s.status },
            ),
            OutgoingWebsocketMessage::GameState(s) => OutgoingWebsocketMessage::GameState(*s),
            OutgoingWebsocketMessage::PlayerRole(r) => OutgoingWebsocketMessage::PlayerRole(*r),
            OutgoingWebsocketMessage::PlayerDied(d) => OutgoingWebsocketMessage::PlayerDied(*d),
            OutgoingWebsocketMessage::SuccessfulKill(id) => OutgoingWebsocketMessage::SuccessfulKill(
                *id,
            ),
            OutgoingWebsocketMessage::InvalidAction(s) => OutgoingWebsocketMessage::InvalidAction(
                s.clone(),
            ),
            OutgoingWebsocketMessage::BodyReported(b) => OutgoingWebsocketMessage::BodyReported(*b),
            OutgoingWebsocketMessage::EmergencyMeetingCalled(e) =>
                OutgoingWebsocketMessage::EmergencyMeetingCalled(*e),
            OutgoingWebsocketMessage::VotingResults(v) => OutgoingWebsocketMessage::VotingResults(
                *v,
            ),
            OutgoingWebsocketMessage::GameOver(w) => OutgoingWebsocketMessage::GameOver(*w),
        }
    }
}

} // verus!
