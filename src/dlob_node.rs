//! The record stored for each order in a node list.

use vstd::prelude::*;

use crate::order::{Order, UserKey};

verus! {

/// The five classifications an order node can have.
#[derive(Clone, Copy, Debug, PartialEq, Eq, Structural)]
pub enum DLOBNodeType {
    RestingLimit,
    TakingLimit,
    FloatingLimit,
    Market,
    Trigger,
}

/// The oracle's price report; only `price` is read here.
#[derive(Clone, Copy, Debug)]
pub struct OraclePriceData {
    pub price: i64,
    pub confidence: u64,
    pub delay: i64,
    pub has_sufficient_number_of_data_points: bool,
}

/// A snapshot of an order, its owner, and the value the lists sort by.
#[derive(Clone, Copy, Debug)]
pub struct OrderNode {
    pub order: Order,
    pub user_account: UserKey,
    pub sort_value: i128,
    pub have_filled: bool,
    pub have_trigger: bool,
}

/// The value a node built from `order` sorts by: its limit price.
pub open spec fn sort_value_of(order: Order) -> i128 {
    order.price as i128
}

pub open spec fn node_of(order: Order, user_account: UserKey) -> OrderNode {
    OrderNode {
        order,
        user_account,
        sort_value: sort_value_of(order),
        have_filled: false,
        have_trigger: false,
    }
}

impl OrderNode {
    pub fn new(order: Order, user_account: UserKey) -> (r: OrderNode)
        ensures
            r == node_of(order, user_account),
    {
        let sort_value = Self::get_sort_value(&order);
        OrderNode { order, user_account, sort_value, have_filled: false, have_trigger: false }
    }

    pub fn get_sort_value(order: &Order) -> (r: i128)
        ensures
            r == sort_value_of(*order),
    {
        order.price as i128
    }
}

/// An order node tagged with the classification of the list that holds it.
#[derive(Clone, Copy, Debug)]
pub enum DLOBNodeOrders {
    RestingLimit(OrderNode),
    TakingLimit(OrderNode),
    FloatingLimit(OrderNode),
    Market(OrderNode),
    Trigger(OrderNode),
}

pub open spec fn tag_node(node_type: DLOBNodeType, node: OrderNode) -> DLOBNodeOrders {
    match node_type {
        DLOBNodeType::RestingLimit => DLOBNodeOrders::RestingLimit(node),
        DLOBNodeType::TakingLimit => DLOBNodeOrders::TakingLimit(node),
        DLOBNodeType::FloatingLimit => DLOBNodeOrders::FloatingLimit(node),
        DLOBNodeType::Market => DLOBNodeOrders::Market(node),
        DLOBNodeType::Trigger => DLOBNodeOrders::Trigger(node),
    }
}

impl DLOBNodeOrders {
    pub open spec fn node(self) -> OrderNode {
        match self {
            DLOBNodeOrders::RestingLimit(n) => n,
            DLOBNodeOrders::TakingLimit(n) => n,
            DLOBNodeOrders::FloatingLimit(n) => n,
            DLOBNodeOrders::Market(n) => n,
            DLOBNodeOrders::Trigger(n) => n,
        }
    }

    pub open spec fn node_type(self) -> DLOBNodeType {
        match self {
            DLOBNodeOrders::RestingLimit(_) => DLOBNodeType::RestingLimit,
            DLOBNodeOrders::TakingLimit(_) => DLOBNodeType::TakingLimit,
            DLOBNodeOrders::FloatingLimit(_) => DLOBNodeType::FloatingLimit,
            DLOBNodeOrders::Market(_) => DLOBNodeType::Market,
            DLOBNodeOrders::Trigger(_) => DLOBNodeType::Trigger,
        }
    }

    /// The node itself, whatever its tag.
    pub fn order_node(&self) -> (r: &OrderNode)
        ensures
            *r == self.node(),
    {
        match self {
            DLOBNodeOrders::RestingLimit(n) => n,
            DLOBNodeOrders::TakingLimit(n) => n,
            DLOBNodeOrders::FloatingLimit(n) => n,
            DLOBNodeOrders::Market(n) => n,
            DLOBNodeOrders::Trigger(n) => n,
        }
    }

    /// An order node is priced by the oracle's report.
    pub fn get_price(&self, oracle_price_data: &OraclePriceData, _slot: u64) -> (r: i128)
        ensures
            r == oracle_price_data.price as i128,
    {
        oracle_price_data.price as i128
    }

    pub fn is_vamm_node(&self) -> (r: bool)
        ensures
            !r,
    {
        false
    }

    pub fn is_base_filled(&self) -> (r: bool)
        ensures
            r == (self.node().order.base_asset_amount_filled
                == self.node().order.base_asset_amount),
    {
        let n = self.order_node();
        n.order.base_asset_amount_filled == n.order.base_asset_amount
    }

    pub fn have_filled(&self) -> (r: bool)
        ensures
            r == self.node().have_filled,
    {
        self.order_node().have_filled
    }

    pub fn order(&self) -> (r: Option<Order>)
        ensures
            r == Some(self.node().order),
    {
        Some(self.order_node().order)
    }

    pub fn user_account(&self) -> (r: Option<UserKey>)
        ensures
            r == Some(self.node().user_account),
    {
        Some(self.order_node().user_account)
    }

    pub fn sort_value(&self) -> (r: i128)
        ensures
            r == self.node().sort_value,
    {
        self.order_node().sort_value
    }
}

/// Tags an existing node with a classification.
pub fn tag_order_node(node_type: DLOBNodeType, node: OrderNode) -> (r: DLOBNodeOrders)
    ensures
        r == tag_node(node_type, node),
{
    match node_type {
        DLOBNodeType::RestingLimit => DLOBNodeOrders::RestingLimit(node),
        DLOBNodeType::TakingLimit => DLOBNodeOrders::TakingLimit(node),
        DLOBNodeType::FloatingLimit => DLOBNodeOrders::FloatingLimit(node),
        DLOBNodeType::Market => DLOBNodeOrders::Market(node),
        DLOBNodeType::Trigger => DLOBNodeOrders::Trigger(node),
    }
}

/// Builds a fresh node from an order snapshot and tags it.
pub fn create_node(node_type: DLOBNodeType, order: Order, user_account: UserKey) -> (r:
    DLOBNodeOrders)
    ensures
        r == tag_node(node_type, node_of(order, user_account)),
        r.node_type() == node_type,
{
    let order_node = OrderNode::new(order, user_account);
    tag_order_node(node_type, order_node)
}

impl From<DLOBNodeOrders> for DLOBNodeType {
    fn from(node_orders: DLOBNodeOrders) -> (r: DLOBNodeType) {
        match node_orders {
            DLOBNodeOrders::RestingLimit(_) => DLOBNodeType::RestingLimit,
            DLOBNodeOrders::TakingLimit(_) => DLOBNodeType::TakingLimit,
            DLOBNodeOrders::FloatingLimit(_) => DLOBNodeType::FloatingLimit,
            DLOBNodeOrders::Market(_) => DLOBNodeType::Market,
            DLOBNodeOrders::Trigger(_) => DLOBNodeType::Trigger,
        }
    }
}

impl vstd::std_specs::convert::FromSpecImpl<DLOBNodeOrders> for DLOBNodeType {
    open spec fn obeys_from_spec() -> bool {
        true
    }

    open spec fn from_spec(v: DLOBNodeOrders) -> DLOBNodeType {
        v.node_type()
    }
}

} // verus!
