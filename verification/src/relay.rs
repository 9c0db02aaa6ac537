//! The unit of data passed between legs of a paired session.

use vstd::prelude::*;

verus! {

/// A relay message travelling between the legs of a session: transcript text
/// toward the game leg, text awaiting synthesis toward the telephony leg,
/// binary audio toward the recognizer.
#[derive(Clone, Debug, PartialEq)]
pub enum RelayMessage {
    Text(String),
    Binary(Vec<u8>),
}

} // verus!
