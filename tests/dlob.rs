use drift_sdk::dlob::{
    cell_for_order, determine_node_type, determine_sub_type, OrderSubType, Side, DLOB,
};
use drift_sdk::dlob_node::DLOBNodeType;
use drift_sdk::dlob_orders::{DLOBOrder, OrderRecord};
use drift_sdk::node_list::NodeList;
use drift_sdk::order::{
    MarketType, Order, OrderStatus, OrderTriggerCondition, OrderType, PositionDirection, UserKey,
};

const RESTING_BID: usize = 1;
const FLOATING_ASK: usize = 2;
const TAKING_BID: usize = 5;
const MARKET_ASK: usize = 6;
const TRIGGER_ABOVE: usize = 8;
const TRIGGER_BELOW: usize = 9;

fn user(b: u8) -> UserKey {
    UserKey { bytes: [b; 32] }
}

fn perp_limit_long(order_id: u32, price: u64) -> Order {
    Order {
        order_id,
        market_type: MarketType::Perp,
        market_index: 0,
        order_type: OrderType::Limit,
        status: OrderStatus::Open,
        direction: PositionDirection::Long,
        price,
        trigger_price: 0,
        trigger_condition: OrderTriggerCondition::Above,
        base_asset_amount: 10,
        base_asset_amount_filled: 0,
        oracle_price_offset: 0,
        slot: 1,
        auction_duration: 10,
        post_only: false,
    }
}

fn prices(list: &NodeList) -> Vec<u64> {
    list.nodes().iter().map(|n| n.order.price).collect()
}

fn perp_market0(dlob: &DLOB) -> Vec<NodeList> {
    let lists = dlob.get_node_lists();
    assert_eq!(lists.len(), 10);
    lists
}

fn total_nodes(dlob: &DLOB) -> usize {
    dlob.get_node_lists().iter().map(|l| l.len()).sum()
}

#[test]
fn basic_book_build() {
    let mut dlob = DLOB::new();
    dlob.insert_order(perp_limit_long(1, 100), user(1), 1);
    let lists = perp_market0(&dlob);
    assert_eq!(lists[TAKING_BID].node_type(), DLOBNodeType::TakingLimit);
    assert_eq!(prices(&lists[TAKING_BID]), vec![100]);
    dlob.insert_order(perp_limit_long(2, 105), user(1), 1);
    let lists = perp_market0(&dlob);
    assert_eq!(prices(&lists[TAKING_BID]), vec![105, 100]);
    assert_eq!(total_nodes(&dlob), 2);
    assert!(dlob.has_open_order(MarketType::Perp, 1, user(1)));
    assert!(!dlob.has_open_order(MarketType::Spot, 1, user(1)));
}

#[test]
fn trigger_flip() {
    let mut dlob = DLOB::new();
    let mut o = perp_limit_long(3, 100);
    o.order_type = OrderType::TriggerLimit;
    o.trigger_price = 90;
    o.trigger_condition = OrderTriggerCondition::Above;
    dlob.insert_order(o, user(1), 1);
    let lists = perp_market0(&dlob);
    assert_eq!(prices(&lists[TRIGGER_ABOVE]), vec![100]);
    assert_eq!(total_nodes(&dlob), 1);

    dlob.trigger_order(o, user(1), 2);
    assert_eq!(total_nodes(&dlob), 1);

    o.trigger_condition = OrderTriggerCondition::TriggeredAbove;
    dlob.trigger_order(o, user(1), 2);
    let lists = perp_market0(&dlob);
    assert_eq!(lists[TRIGGER_ABOVE].len(), 0);
    assert_eq!(prices(&lists[TAKING_BID]), vec![100]);
    assert_eq!(total_nodes(&dlob), 1);
}

#[test]
fn trigger_below_flip() {
    let mut dlob = DLOB::new();
    let mut o = perp_limit_long(4, 100);
    o.order_type = OrderType::TriggerMarket;
    o.direction = PositionDirection::Short;
    o.trigger_condition = OrderTriggerCondition::Below;
    dlob.insert_order(o, user(1), 1);
    assert_eq!(perp_market0(&dlob)[TRIGGER_BELOW].len(), 1);
    o.trigger_condition = OrderTriggerCondition::TriggeredBelow;
    dlob.trigger_order(o, user(1), 1);
    let lists = perp_market0(&dlob);
    assert_eq!(lists[TRIGGER_BELOW].len(), 0);
    assert_eq!(lists[MARKET_ASK].len(), 1);
}

#[test]
fn full_fill_removal() {
    let mut dlob = DLOB::new();
    let o = perp_limit_long(5, 100);
    dlob.insert_order(o, user(1), 1);
    assert_eq!(total_nodes(&dlob), 1);
    dlob.update_order(o, user(1), 1, 10);
    assert_eq!(total_nodes(&dlob), 0);
    assert!(dlob.get_order(5, user(1)).is_none());
}

#[test]
fn partial_fill_updates_snapshot() {
    let mut dlob = DLOB::new();
    let o = perp_limit_long(6, 100);
    dlob.insert_order(o, user(1), 1);
    dlob.update_order(o, user(1), 1, 0);
    assert_eq!(dlob.get_order(6, user(1)).unwrap().base_asset_amount_filled, 0);
    dlob.update_order(o, user(1), 1, 4);
    let stored = dlob.get_order(6, user(1)).unwrap();
    assert_eq!(stored.base_asset_amount_filled, 4);
    assert_eq!(stored.base_asset_amount, 10);
    assert_eq!(total_nodes(&dlob), 1);
}

#[test]
fn delete_removes_from_classified_list() {
    let mut dlob = DLOB::new();
    let o = perp_limit_long(7, 100);
    dlob.insert_order(o, user(1), 1);
    dlob.insert_order(perp_limit_long(8, 101), user(1), 1);
    dlob.delete_order(o, user(1), 1);
    assert_eq!(prices(&perp_market0(&dlob)[TAKING_BID]), vec![101]);
    dlob.delete_order(o, user(1), 1);
    assert_eq!(total_nodes(&dlob), 1);
}

#[test]
fn clear_resets() {
    let mut dlob = DLOB::new();
    assert!(!dlob.is_ready());
    dlob.insert_order(perp_limit_long(1, 100), user(1), 1);
    let mut o = perp_limit_long(2, 100);
    o.market_index = 3;
    dlob.insert_order(o, user(1), 1);
    let mut s = perp_limit_long(3, 100);
    s.market_type = MarketType::Spot;
    s.market_index = 1;
    dlob.insert_order(s, user(2), 1);
    dlob.update_resting_limit_orders(5);
    assert_eq!(dlob.get_node_lists().len(), 30);
    dlob.clear();
    assert_eq!(dlob.get_node_lists().len(), 0);
    assert!(!dlob.has_open_order(MarketType::Perp, 1, user(1)));
    assert!(!dlob.has_open_order(MarketType::Spot, 3, user(2)));
    assert_eq!(dlob.max_slot_for_resting_limit_orders(), 0);
    assert!(dlob.is_ready());
    dlob.insert_order(perp_limit_long(1, 100), user(1), 1);
    assert_eq!(total_nodes(&dlob), 1);
}

#[test]
fn sweep_moves_eligible_taking_orders_to_resting() {
    let mut dlob = DLOB::new();
    dlob.insert_order(perp_limit_long(1, 100), user(1), 1);
    dlob.insert_order(perp_limit_long(2, 105), user(1), 1);
    dlob.update_resting_limit_orders(11);
    assert_eq!(perp_market0(&dlob)[TAKING_BID].len(), 2);
    dlob.update_resting_limit_orders(12);
    let lists = perp_market0(&dlob);
    assert_eq!(lists[TAKING_BID].len(), 0);
    assert_eq!(prices(&lists[RESTING_BID]), vec![105, 100]);
    assert_eq!(dlob.max_slot_for_resting_limit_orders(), 12);
}

#[test]
fn sweep_runs_once_per_slot() {
    let mut dlob = DLOB::new();
    dlob.insert_order(perp_limit_long(1, 100), user(1), 1);
    dlob.update_resting_limit_orders(20);
    assert_eq!(perp_market0(&dlob)[RESTING_BID].len(), 1);
    dlob.insert_order(perp_limit_long(2, 100), user(1), 5);
    assert_eq!(perp_market0(&dlob)[TAKING_BID].len(), 1);
    dlob.update_resting_limit_orders(20);
    dlob.update_resting_limit_orders(19);
    assert_eq!(perp_market0(&dlob)[TAKING_BID].len(), 1);
    assert_eq!(dlob.max_slot_for_resting_limit_orders(), 20);
    dlob.update_resting_limit_orders(21);
    assert_eq!(perp_market0(&dlob)[TAKING_BID].len(), 0);
    assert_eq!(perp_market0(&dlob)[RESTING_BID].len(), 2);
}

#[test]
fn init_status_and_new_markets() {
    let mut dlob = DLOB::new();
    let mut o = perp_limit_long(1, 100);
    o.status = OrderStatus::Init;
    dlob.insert_order(o, user(1), 1);
    assert_eq!(dlob.get_node_lists().len(), 0);
    let mut f = perp_limit_long(2, 100);
    f.status = OrderStatus::Filled;
    dlob.insert_order(f, user(1), 1);
    assert_eq!(total_nodes(&dlob), 1);
    assert!(!dlob.has_open_order(MarketType::Perp, 2, user(1)));
}

#[test]
fn perp_lists_come_before_spot() {
    let mut dlob = DLOB::new();
    let mut s = perp_limit_long(1, 7);
    s.market_type = MarketType::Spot;
    dlob.insert_order(s, user(1), 1);
    dlob.insert_order(perp_limit_long(2, 9), user(1), 1);
    let lists = dlob.get_node_lists();
    assert_eq!(lists.len(), 20);
    assert_eq!(prices(&lists[TAKING_BID]), vec![9]);
    assert_eq!(prices(&lists[10 + TAKING_BID]), vec![7]);
}

#[test]
fn get_order_finds_order() {
    let mut dlob = DLOB::new();
    dlob.insert_order(perp_limit_long(1, 100), user(1), 1);
    assert_eq!(dlob.get_order(1, user(1)).unwrap().price, 100);
    assert!(dlob.get_order(1, user(2)).is_none());
    assert!(dlob.get_order(2, user(1)).is_none());
}

#[test]
fn init_from_orders_once() {
    let mut dlob = DLOB::new();
    let first = DLOBOrder { user: user(1), order: perp_limit_long(1, 100) };
    let dup = DLOBOrder { user: user(1), order: perp_limit_long(1, 200) };
    let other = DLOBOrder { user: user(2), order: perp_limit_long(1, 150) };
    assert!(dlob.init_from_orders(vec![first, dup, other], 1));
    assert!(dlob.is_ready());
    assert_eq!(dlob.get_order(1, user(1)).unwrap().price, 100);
    assert_eq!(total_nodes(&dlob), 2);
    assert!(!dlob.init_from_orders(vec![DLOBOrder { user: user(3), order: perp_limit_long(1, 1) }], 1));
    assert_eq!(total_nodes(&dlob), 2);
}

#[test]
fn initialize_after_streaming() {
    let mut dlob = DLOB::new();
    let rec = OrderRecord { ts: 0, user: user(1), order: perp_limit_long(1, 100) };
    dlob.handle_order_record(rec, 1);
    assert_eq!(total_nodes(&dlob), 1);
    dlob.initialize();
    assert!(dlob.is_ready());
    assert!(!dlob.init_from_orders(vec![], 1));
}

#[test]
fn classification_cases() {
    let mut o = perp_limit_long(1, 100);
    assert_eq!(determine_node_type(&o, 1), DLOBNodeType::TakingLimit);
    assert_eq!(determine_node_type(&o, 12), DLOBNodeType::RestingLimit);
    o.post_only = true;
    assert_eq!(determine_node_type(&o, 1), DLOBNodeType::RestingLimit);
    o.oracle_price_offset = -5;
    assert_eq!(determine_node_type(&o, 1), DLOBNodeType::FloatingLimit);
    o.order_type = OrderType::Oracle;
    assert_eq!(determine_node_type(&o, 1), DLOBNodeType::Market);
    o.order_type = OrderType::Market;
    assert_eq!(determine_node_type(&o, 1), DLOBNodeType::Market);
    o.order_type = OrderType::TriggerMarket;
    assert_eq!(determine_node_type(&o, 1), DLOBNodeType::Trigger);
    o.trigger_condition = OrderTriggerCondition::TriggeredBelow;
    assert_eq!(determine_node_type(&o, 1), DLOBNodeType::Market);
    o.order_type = OrderType::TriggerLimit;
    assert_eq!(determine_node_type(&o, 1), DLOBNodeType::FloatingLimit);
    o.trigger_condition = OrderTriggerCondition::Below;
    assert_eq!(determine_node_type(&o, 1), DLOBNodeType::Trigger);
    let mut a = perp_limit_long(2, 1);
    a.auction_duration = 0;
    assert_eq!(determine_node_type(&a, 0), DLOBNodeType::RestingLimit);
}

#[test]
fn classification_covers_every_combination() {
    let types = [
        OrderType::Market,
        OrderType::Limit,
        OrderType::TriggerMarket,
        OrderType::TriggerLimit,
        OrderType::Oracle,
    ];
    let conditions = [
        OrderTriggerCondition::Above,
        OrderTriggerCondition::Below,
        OrderTriggerCondition::TriggeredAbove,
        OrderTriggerCondition::TriggeredBelow,
        OrderTriggerCondition::NotSet,
    ];
    for t in types {
        for c in conditions {
            for offset in [0, 3] {
                let mut o = perp_limit_long(1, 100);
                o.order_type = t;
                o.trigger_condition = c;
                o.oracle_price_offset = offset;
                let kind = determine_node_type(&o, 1);
                assert_eq!(kind, determine_node_type(&o, 1));
                let cell = cell_for_order(&o, 1);
                assert!(cell < 10);
                let pending = matches!(t, OrderType::TriggerMarket | OrderType::TriggerLimit)
                    && matches!(c, OrderTriggerCondition::Above | OrderTriggerCondition::Below);
                assert_eq!(kind == DLOBNodeType::Trigger, pending);
            }
        }
    }
}

#[test]
fn sub_type_routing() {
    let mut o = perp_limit_long(1, 100);
    assert_eq!(determine_sub_type(&o, false), OrderSubType::Side(Side::Bid));
    o.direction = PositionDirection::Short;
    assert_eq!(determine_sub_type(&o, false), OrderSubType::Side(Side::Ask));
    o.trigger_condition = OrderTriggerCondition::Above;
    assert_eq!(
        determine_sub_type(&o, true),
        OrderSubType::Trigger(OrderTriggerCondition::Above)
    );
    o.trigger_condition = OrderTriggerCondition::NotSet;
    assert_eq!(
        determine_sub_type(&o, true),
        OrderSubType::Trigger(OrderTriggerCondition::Below)
    );
    let mut f = perp_limit_long(1, 100);
    f.direction = PositionDirection::Short;
    f.oracle_price_offset = 1;
    assert_eq!(cell_for_order(&f, 1), FLOATING_ASK);
}

#[test]
fn init_update_event_is_dropped() {
    let mut dlob = DLOB::new();
    let o = perp_limit_long(1, 100);
    dlob.insert_order(o, user(1), 1);
    let mut stale = o;
    stale.status = OrderStatus::Init;
    dlob.update_order(stale, user(1), 1, 4);
    assert_eq!(dlob.get_order(1, user(1)).unwrap().status, OrderStatus::Open);
    assert_eq!(dlob.get_order(1, user(1)).unwrap().base_asset_amount_filled, 0);
    assert_eq!(dlob.max_slot_for_resting_limit_orders(), 0);
    dlob.update_resting_limit_orders(12);
    let lists = perp_market0(&dlob);
    assert_eq!(lists[TAKING_BID].len(), 0);
    assert_eq!(prices(&lists[RESTING_BID]), vec![100]);
}

#[test]
fn sweep_keeps_partially_filled_order() {
    let mut dlob = DLOB::new();
    let o = perp_limit_long(1, 100);
    dlob.insert_order(o, user(1), 1);
    dlob.update_order(o, user(1), 1, 3);
    dlob.update_resting_limit_orders(12);
    assert_eq!(total_nodes(&dlob), 1);
    let lists = perp_market0(&dlob);
    assert_eq!(lists[RESTING_BID].nodes()[0].order.base_asset_amount_filled, 3);
}

#[test]
fn cleared_book_finds_nothing() {
    let mut dlob = DLOB::new();
    dlob.insert_order(perp_limit_long(1, 100), user(1), 1);
    dlob.clear();
    assert!(dlob.get_order(1, user(1)).is_none());
    assert!(DLOB::default().get_node_lists().is_empty());
}
