//! Dispatching a small fleet of trains that deliver packages over a fixed
//! network of stations.
//!
//! The network is an undirected weighted graph. Each tick every train in turn
//! loads what fits, picks a target, moves one edge along a cheapest route and
//! unloads what has arrived; every completed leg is appended to a log.

pub mod dispatch;
pub mod graph;
pub mod laws;
pub mod ledger;
pub mod model;
pub mod progress;
pub mod route;
pub mod span;
