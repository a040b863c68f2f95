//! An in-memory mirror of a decentralized exchange's limit order book,
//! rebuilt from a stream of order lifecycle events.

pub mod order;
pub mod dlob_node;
pub mod node_list;
pub mod dlob;
pub mod dlob_orders;
