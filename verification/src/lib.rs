//! Game logic of a social-deduction party game server: players join a lobby,
//! roles are dealt, imposters kill crewmates, bodies are reported, meetings
//! vote players out, and the game ends when one side has nobody left alive.
//!
//! Every operation on the game is a verified transition that returns the
//! messages and connection actions it causes as plain [`effects::Effect`]
//! values; the actor, websocket and HTTP plumbing that carries them out lives
//! outside this library.

pub mod confidential_data;
pub mod clock;
pub mod rng;
pub mod game;
pub mod incoming_websocket_messages;
pub mod internal_messages;
pub mod outgoing_websocket_messages;
pub mod effects;
pub mod meeting;
pub mod player;
