//! Matchmaking and relay core of a pairwise signaling server.
//!
//! Connected peers are either waiting in a FIFO queue or paired in a symmetric
//! session table; the functions here move them between the two and route
//! negotiation payloads between partners.
pub mod messages;
pub mod peer;
pub mod queue;
pub mod sessions;
pub mod signaling;
pub mod state;
