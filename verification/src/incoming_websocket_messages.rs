//! Messages that a player sends over their websocket.

use vstd::prelude::*;

verus! {

/// Everything a player can ask the server to do.
#[derive(PartialEq, Debug, Clone)]
pub enum IncomingWebsocketMessage {
    KillPlayer(KillPlayer),
    ReportBody(ReportBody),
    Vote(Vote),
    ChooseColor(ChooseColor),
    CallEmergencyMeeting,
}

#[derive(PartialEq, Eq, Debug, Clone, Copy)]
pub struct ReportBody {
    pub corpse: u128,
}

#[derive(PartialEq, Eq, Debug, Clone, Copy)]
pub struct KillPlayer {
    pub target: u128,
}

/// A vote in a meeting; `None` abstains.
#[derive(Debug, PartialEq, Eq, Clone, Copy)]
pub struct Vote {
    pub target: Option<u128>,
}

#[derive(PartialEq, Debug, Clone)]
pub struct ChooseColor {
    pub color: String,
}

} // verus!
