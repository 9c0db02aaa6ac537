//! Trusted boundary to the two channel crates that carry relay messages.
//!
//! A relay channel is an unbounded multi-producer/single-consumer conduit.
//! The library only holds sender halves and hands messages to them; the
//! binary around the library creates the channels and owns the receiving
//! loops.  Delivery order and non-duplication rest on the channel crates
//! themselves.

use vstd::prelude::*;

use crate::relay::RelayMessage;

verus! {

/// Declares `async_channel::Sender` so that registry entries can hold the
/// sender half of a game leg's relay channel.  The value is opaque here.
#[verifier::external_type_specification]
#[verifier::external_body]
#[verifier::reject_recursive_types(T)]
pub struct ExAsyncSender<T>(async_channel::Sender<T>);

/// Declares `crossbeam_channel::Sender` so that registry entries can hold
/// the sender half of a telephony leg's reverse channel.
#[verifier::external_type_specification]
#[verifier::external_body]
#[verifier::reject_recursive_types(T)]
pub struct ExCrossbeamSender<T>(crossbeam_channel::Sender<T>);

/// Relies on `async_channel::Sender::try_send`: queues the message without
/// blocking and reports whether the channel accepted it (an unbounded
/// channel refuses only once closed).  Nothing is promised of the result:
/// whether the consumer is still there depends on the other legs.
#[verifier::external_body]
pub(crate) fn try_send_game(tx: &async_channel::Sender<RelayMessage>, m: RelayMessage) -> bool {
    tx.try_send(m).is_ok()
}

/// Relies on `crossbeam_channel::Sender::try_send`: queues the message
/// without blocking and reports whether the channel accepted it (an
/// unbounded channel refuses only once disconnected).
#[verifier::external_body]
pub(crate) fn try_send_telephony(
    tx: &crossbeam_channel::Sender<RelayMessage>,
    m: RelayMessage,
) -> bool {
    tx.try_send(m).is_ok()
}

} // verus!
