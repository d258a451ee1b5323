//! A calendar-queue fair scheduler.
//!
//! Many independent flows are multiplexed into one output stream. Each flow
//! declares a minimum number of logical ticks between two of its turns, and
//! the scheduler serves flows that fall due at the same tick in arrival order.
//!
//! - [`sorter`] describes the time index as a value: an ascending list of
//!   slots, and what scheduling a flow does to it.
//! - [`calendar`] adds the clock and the periods, and defines what one
//!   logical instant does.
//! - [`calendar_queue`] is the scheduler itself, [`CalendarQueue`], whose
//!   operations are proved to follow that description.
//! - [`laws`] proves what follows for every scheduler: no flow has two
//!   turns within its period, flows that collide are served in arrival
//!   order, and no flow starves.
//! - [`channel`] holds the calls into `std::sync::mpsc`, whose behaviour is
//!   taken on trust.

use vstd::prelude::*;

pub mod sorter;
pub mod calendar;
pub mod channel;
pub mod calendar_queue;
pub mod laws;

pub use crate::calendar_queue::CalendarQueue;

verus! {

/// Number of logical ticks between two turns of one flow.
pub type ConformanceTicks = u64;

/// A value of the scheduler's logical clock.
pub type ClockTick = u64;

/// The ways a registration can fail.
#[derive(Debug, PartialEq, Eq)]
pub enum Error {
    /// The identifier is already registered with the scheduler.
    DuplicateFlowId,
}

} // verus!
