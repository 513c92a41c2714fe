//! Core of a peer-to-peer, offline-first replication substrate.
//!
//! Each store's history is an event causality graph: a DAG of headers,
//! each naming its parents. Peers reconcile their graphs with a
//! bandwidth-conscious sync protocol that probes ancestors at
//! exponentially spaced distances and ships missing headers in
//! causal order.

pub mod ecg;
pub mod ecg_sync;
pub mod graph;
pub mod store;
pub mod twopmap;
pub mod util;
pub mod vecset;
