//! Core of a real-time relay that pairs an inbound telephone call with a
//! waiting game session.  A finite pool of short spoken codes is the only
//! correlation mechanism: a game connection claims a code, a caller speaks
//! it, and a recognition bridge completes the pairing.  The verified library
//! holds the code pool, the pairing registry, the audio frame assembler and
//! the recognition-bridge state machine; the unverified binary around it owns
//! the sockets and the event loops.

pub mod assembler;
pub mod bridge;
pub mod channels;
pub mod game_leg;
pub mod laws;
pub mod media;
pub mod pool;
pub mod registry;
pub mod relay;
