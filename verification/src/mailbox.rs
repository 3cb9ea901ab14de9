//! Mailboxes between connections: unbounded channels whose sending halves
//! rest in the keyspace and in the registry.
//!
//! Nothing in this file is proved. It declares the channel types of `tokio`
//! and states what the library relies on when it sends.

use vstd::prelude::*;
use tokio::sync::mpsc::{UnboundedReceiver, UnboundedSender};

verus! {

/// `tokio::sync::mpsc::UnboundedSender`, the sending half of a mailbox. The
/// library stores such values and hands them to `try_send`; it never looks
/// inside.
#[verifier::external_type_specification]
#[verifier::external_body]
#[verifier::reject_recursive_types(T)]
pub struct ExUnboundedSender<T>(UnboundedSender<T>);

/// `tokio::sync::mpsc::UnboundedReceiver`, the receiving half of a mailbox.
/// The library creates it and passes it on to whoever waits.
#[verifier::external_type_specification]
#[verifier::external_body]
#[verifier::reject_recursive_types(T)]
pub struct ExUnboundedReceiver<T>(UnboundedReceiver<T>);

/// `tokio::sync::mpsc::unbounded_channel`: a fresh mailbox. Nothing is
/// claimed of the two halves.
pub assume_specification<T>[ tokio::sync::mpsc::unbounded_channel::<T> ]() -> (halves: (
    UnboundedSender<T>,
    UnboundedReceiver<T>,
));

/// `UnboundedSender::send`: puts `message` into the mailbox without
/// waiting. The result says whether the mailbox took it; it does not when
/// the receiving half was closed or dropped, which depends on what the
/// receiver did in the meantime, so nothing is claimed of the result.
#[verifier::external_body]
pub(crate) fn try_send<T>(sender: &UnboundedSender<T>, message: T) -> (delivered: bool) {
    sender.send(message).is_ok()
}

} // verus!
