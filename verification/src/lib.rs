//! Reliability substrate for a choreographed order saga: a transactional
//! outbox, a durable consumer framework, and an optimistic-concurrency
//! stock reservation engine, with the event codec that ties them together.

pub mod codec;
pub mod consumers;
pub mod delivery;
pub mod errors;
pub mod events;
pub mod inventory;
pub mod orders;
pub mod outbox;
pub mod payments;
pub mod saga;
pub mod wire;

