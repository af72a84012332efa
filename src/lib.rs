//! A sharded, eventually consistent store of CRDT values: the consistent
//! hash ring, routing decisions, the cluster controller's reconciliation
//! steps and the storage engine's decisions, each with its contract.

pub mod config;
pub mod controller;
pub mod crdt;
pub mod hashring;
pub mod hex;
pub mod order;
pub mod ring;
pub mod router;
pub mod storage;
