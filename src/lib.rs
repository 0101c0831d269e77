//! Aggregation-and-distribution engine for federated learning: validation of
//! local updates, the global-model merge, reward allocation, the distribution
//! ledger, the round state machine and the persisted model encoding.
//!
//! Model weights and the learning rate are fixed-point integers (see
//! `model::WEIGHT_SCALE` and `aggregate::RATE_SCALE`); participation is the
//! exact ratio of a participant's contributed samples to the model's total.

pub mod model;
pub mod validate;
pub mod aggregate;
pub mod allocate;
pub mod ledger;
pub mod round;
pub mod codec;
