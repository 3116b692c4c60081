//! What a game transition asks the outside world to do.

use crate::outgoing_websocket_messages::OutgoingWebsocketMessage;
use vstd::prelude::*;

verus! {

/// One action for the server's connection handling to carry out, in the
/// order in which the game produced it.
#[derive(PartialEq, Debug, Clone)]
pub enum Effect {
    /// Send `msg` over the open websocket of player `to`.
    Send { to: u128, msg: OutgoingWebsocketMessage },
    /// Close the websocket of player `player`.
    CloseWebsocket { player: u128 },
    /// Deliver an `EndVoting` request to the game after `secs` seconds.
    EndVotingAfter { secs: u64 },
}

} // verus!
