//! The producer/consumer channel that carries the items of one flow.

use vstd::prelude::*;
use std::sync::mpsc::{Receiver, Sender};

verus! {

/// The consuming end of a flow's queue, `std::sync::mpsc::Receiver`. Nothing
/// is known of what it holds: producers on other threads fill it.
#[verifier::external_type_specification]
#[verifier::external_body]
#[verifier::reject_recursive_types(T)]
pub struct ExReceiver<T>(Receiver<T>);

/// The producing end of a flow's queue, `std::sync::mpsc::Sender`.
#[verifier::external_type_specification]
#[verifier::external_body]
#[verifier::reject_recursive_types(T)]
pub struct ExSender<T>(Sender<T>);

/// Opens a fresh unbounded queue with `std::sync::mpsc::channel`. Nothing is
/// claimed of the two ends.
#[verifier::external_body]
pub(crate) fn open_channel<T>() -> (ends: (Sender<T>, Receiver<T>)) {
    std::sync::mpsc::channel()
}

/// Duplicates a producing end with `Sender::clone`. Nothing is claimed of
/// the duplicate.
#[verifier::external_body]
pub(crate) fn clone_sender<T>(sender: &Sender<T>) -> (copy: Sender<T>) {
    sender.clone()
}

/// Takes the oldest waiting item with `Receiver::try_recv`, without blocking.
/// Whether an item waits depends on the producers, so nothing is claimed of
/// the outcome; an empty and a closed queue both give `None`.
#[verifier::external_body]
pub(crate) fn try_receive<T>(receiver: &Receiver<T>) -> (item: Option<T>) {
    receiver.try_recv().ok()
}

} // verus!
