//! Verified core of a distributed cellular colony simulation: the shard grid
//! with its tick rule, shard border exchange, colony events, coordinator
//! bookkeeping and the small parsers and planners around them.

pub mod model;
pub mod random;
pub mod arith;
pub mod shard;
pub mod shard_utils;
pub mod colony;
pub mod events;
pub mod text;
pub mod event_generator;
pub mod ranking;
pub mod colony_stats;
pub mod statistics;
pub mod http;
pub mod coordinator_storage;
pub mod cluster;
pub mod latency;
pub mod viewer;
pub mod config;
pub mod wire;
pub mod backend_node;
