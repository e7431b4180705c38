//! The session broker between an IDE process and a browser-hosted client:
//! the registry that decides, for each connection id, whether an attach
//! creates a session, resumes one or conflicts with one; the one-time
//! handshake that accepts or refuses an IDE; and the wire form of messages.
use vstd::prelude::*;

pub mod codec;
pub mod handshake;
pub mod message;
pub mod registry;

verus! {

/// How many messages each queue of a session holds before a sender waits.
pub const QUEUE_CAPACITY: usize = 10;

} // verus!
