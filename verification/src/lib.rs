//! Observational instrument for a feed of not-yet-confirmed transactions.
//!
//! The library is the verified core of a two-stage pipeline: a capture stage
//! stamps every incoming transaction hash with the elapsed time since the
//! pipeline started and relays it through a bounded queue; a resolution stage
//! looks each hash up, emits the full transaction annotated with its capture
//! instant, and keeps a retry set of hashes whose lookup came back not-found.
//! The surrounding process supplies the subscription, the clock readings and
//! the lookup calls, and drives the state machines defined here.

pub mod relay_queue;
pub mod resolution;
pub mod timed_tx;
