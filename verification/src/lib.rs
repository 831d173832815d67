//! Control-plane logic of a federated storage mesh: the replicated cluster
//! registry and its command wire format, placement scheduling, peer and zone
//! directories, gossip bookkeeping, and the log-structured volume layout.

pub mod wire;
pub mod command;
pub mod proto;
pub mod registry;
pub mod pending;
pub mod scheduler;
pub mod transport;
pub mod zones;
pub mod digest;
pub mod transfer;
pub mod mesh;
pub mod gossip;
pub mod reconcile;
pub mod orchestrator;
pub mod replication;
pub mod pipeline;
pub mod layout;
pub mod block;
pub mod magma;
pub mod foundry;
pub mod nvram;
pub mod bridge;
pub mod capsules;
pub mod raftlog;
