//! The two kinds of channel through which the registry speaks to the
//! outside: the bounded queue of a hook, and the one-shot signal that tells a
//! connection to close. Whether anything is on the other end is not the
//! registry's business, so nothing is claimed of what these calls return.

use vstd::prelude::*;
use crate::hooks::HookEvent;

verus! {

#[verifier::external_type_specification]
#[verifier::external_body]
#[verifier::reject_recursive_types(T)]
pub struct ExEventSender<T>(tokio::sync::mpsc::Sender<T>);

#[verifier::external_type_specification]
#[verifier::external_body]
#[verifier::reject_recursive_types(T)]
pub struct ExSignalSender<T>(tokio::sync::oneshot::Sender<T>);

/// `tokio::sync::mpsc::Sender::try_send`: puts `event` into the queue
/// without waiting. The result says whether the queue took it; it does not
/// when the queue is full or the receiving half is closed, and which of
/// these holds depends on the receiver alone.
#[verifier::external_body]
pub(crate) fn offer(tx: &tokio::sync::mpsc::Sender<HookEvent>, event: HookEvent) -> (taken: bool) {
    tx.try_send(event).is_ok()
}

/// `tokio::sync::oneshot::Sender::send` with the unit value: fires the
/// signal. The result says whether a receiver was still there.
#[verifier::external_body]
pub(crate) fn fire(tx: tokio::sync::oneshot::Sender<()>) -> (heard: bool) {
    tx.send(()).is_ok()
}

} // verus!
