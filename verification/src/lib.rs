//! A small Kafka-shaped message queue: wire protocol, partition logs, topics,
//! consumer groups, cluster metadata and the broker's request handling.

pub mod acl;
pub mod auth;
pub mod broker;
pub mod cgroup;
pub mod client;
pub mod cluster;
pub mod cluster_state;
pub mod compression;
pub mod consumer;
pub mod coordinator;
pub mod dispatch;
pub mod error;
pub mod fetch_batch;
pub mod fsync;
pub mod idempotency;
pub mod ledger;
pub mod limits;
pub mod log_store;
pub mod message;
pub mod ops;
pub mod metadata;
pub mod metrics;
pub mod partition;
pub mod partition_log;
pub mod paths;
pub mod protocol;
pub mod replication;
pub mod request_log;
pub mod snapshot;
pub mod storage;
pub mod stress;
pub mod text;
pub mod topic;
pub mod topic_config;
pub mod wire;
