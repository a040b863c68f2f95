//! The records through which orders reach the book.

use vstd::prelude::*;

use crate::order::{Order, UserKey};

verus! {

/// A snapshot of orders, in the order they are loaded.
pub type DLOBOrders = Vec<DLOBOrder>;

/// One order of a snapshot, with its owner.
#[derive(Clone, Copy, Debug)]
pub struct DLOBOrder {
    pub user: UserKey,
    pub order: Order,
}

/// An order event from the stream: the order's new snapshot and its owner.
#[derive(Clone, Copy, Debug)]
pub struct OrderRecord {
    pub ts: i64,
    pub user: UserKey,
    pub order: Order,
}

} // verus!
