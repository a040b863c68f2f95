//! The order record that the book stores, and the predicates that decide
//! where an order belongs.

use vstd::prelude::*;

verus! {

/// The two kinds of market an order can trade on.
#[derive(Clone, Copy, Debug, PartialEq, Eq, Structural, Hash)]
pub enum MarketType {
    Spot,
    Perp,
}

#[derive(Clone, Copy, Debug, PartialEq, Eq, Structural)]
pub enum OrderType {
    Market,
    Limit,
    TriggerMarket,
    TriggerLimit,
    Oracle,
}

#[derive(Clone, Copy, Debug, PartialEq, Eq, Structural)]
pub enum OrderStatus {
    Init,
    Open,
    Filled,
    Cancelled,
}

#[derive(Clone, Copy, Debug, PartialEq, Eq, Structural)]
pub enum PositionDirection {
    Long,
    Short,
}

#[derive(Clone, Copy, Debug, PartialEq, Eq, Structural)]
pub enum OrderTriggerCondition {
    Above,
    Below,
    TriggeredAbove,
    TriggeredBelow,
    NotSet,
}

/// The account that owns an order: the 32 bytes of its public key.
#[derive(Clone, Copy, Debug)]
pub struct UserKey {
    pub bytes: [u8; 32],
}

impl UserKey {
    pub open spec fn view(self) -> Seq<u8> {
        self.bytes@
    }

    /// Byte-for-byte equality of two keys.
    pub fn same_as(&self, other: &UserKey) -> (r: bool)
        ensures
            r == (self@ == other@),
    {
        let mut i: usize = 0;
        while i < 32
            invariant
                0 <= i <= 32,
                forall|j: int| 0 <= j < i ==> self@[j] == other@[j],
            decreases 32 - i,
        {
            if self.bytes[i] != other.bytes[i] {
                return false;
            }
            i = i + 1;
        }
        proof {
            assert(self@ =~= other@);
        }
        true
    }
}

/// The key under which an order is known for its whole life:
/// its owner together with the owner's sequence number for it.
#[derive(Clone, Copy, Debug)]
pub struct OrderSignature {
    pub user: UserKey,
    pub order_id: u32,
}

pub open spec fn signature_view(user: UserKey, order_id: u32) -> (Seq<u8>, u32) {
    (user@, order_id)
}

impl OrderSignature {
    pub open spec fn view(self) -> (Seq<u8>, u32) {
        signature_view(self.user, self.order_id)
    }

    pub fn new(order_id: u32, user: UserKey) -> (r: OrderSignature)
        ensures
            r@ == signature_view(user, order_id),
    {
        OrderSignature { user, order_id }
    }

    pub fn same_as(&self, other: &OrderSignature) -> (r: bool)
        ensures
            r == (self@ == other@),
    {
        self.order_id == other.order_id && self.user.same_as(&other.user)
    }
}

/// One snapshot of an order, with the fields that the book reads.
#[derive(Clone, Copy, Debug)]
pub struct Order {
    pub order_id: u32,
    pub market_type: MarketType,
    pub market_index: u16,
    pub order_type: OrderType,
    pub status: OrderStatus,
    pub direction: PositionDirection,
    pub price: u64,
    pub trigger_price: u64,
    pub trigger_condition: OrderTriggerCondition,
    pub base_asset_amount: u64,
    pub base_asset_amount_filled: u64,
    pub oracle_price_offset: i32,
    /// The slot at which the order was placed.
    pub slot: u64,
    /// How many slots the order's auction lasts after placement.
    pub auction_duration: u8,
    pub post_only: bool,
}

pub open spec fn is_limit_type(t: OrderType) -> bool {
    t == OrderType::Limit || t == OrderType::TriggerLimit
}

/// The order must fire on its trigger price before it can trade.
pub open spec fn must_be_triggered_spec(t: OrderType) -> bool {
    t == OrderType::TriggerMarket || t == OrderType::TriggerLimit
}

/// The auction is over once more than `auction_duration` slots have passed
/// since placement; an order without an auction is never in one.
pub open spec fn auction_complete_spec(o: Order, slot: u64) -> bool {
    o.auction_duration == 0 || (slot >= o.slot && slot - o.slot > o.auction_duration)
}

/// A limit order rests in the book once it is post-only or its auction is over.
pub open spec fn resting_limit_spec(o: Order, slot: u64) -> bool {
    is_limit_type(o.order_type) && (o.post_only || auction_complete_spec(o, slot))
}

impl Order {
    pub fn must_be_triggered(&self) -> (r: bool)
        ensures
            r == must_be_triggered_spec(self.order_type),
    {
        match self.order_type {
            OrderType::TriggerMarket | OrderType::TriggerLimit => true,
            _ => false,
        }
    }

    pub fn is_limit_order(&self) -> (r: bool)
        ensures
            r == is_limit_type(self.order_type),
    {
        match self.order_type {
            OrderType::Limit | OrderType::TriggerLimit => true,
            _ => false,
        }
    }

    pub fn is_auction_complete(&self, slot: u64) -> (r: bool)
        ensures
            r == auction_complete_spec(*self, slot),
    {
        self.auction_duration == 0 || (slot >= self.slot && slot - self.slot
            > self.auction_duration as u64)
    }

    pub fn is_resting_limit_order(&self, slot: u64) -> (r: bool)
        ensures
            r == resting_limit_spec(*self, slot),
    {
        self.is_limit_order() && (self.post_only || self.is_auction_complete(slot))
    }

    pub fn signature(&self, user: UserKey) -> (r: OrderSignature)
        ensures
            r@ == signature_view(user, self.order_id),
    {
        OrderSignature::new(self.order_id, user)
    }
}

} // verus!
