pub mod consensus;
pub mod runtime;
pub mod node;
pub mod grandpa;
pub mod tx_pool;
pub mod metrics;
