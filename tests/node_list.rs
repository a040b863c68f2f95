use drift_sdk::dlob_node::{create_node, DLOBNodeOrders, DLOBNodeType, OraclePriceData, OrderNode};
use drift_sdk::node_list::{get_order_signature, NodeList, SortDirection};
use drift_sdk::order::{
    MarketType, Order, OrderStatus, OrderTriggerCondition, OrderType, PositionDirection, UserKey,
};

fn user(b: u8) -> UserKey {
    UserKey { bytes: [b; 32] }
}

fn limit(order_id: u32, price: u64) -> Order {
    Order {
        order_id,
        market_type: MarketType::Perp,
        market_index: 0,
        order_type: OrderType::Limit,
        status: OrderStatus::Open,
        direction: PositionDirection::Long,
        price,
        trigger_price: 0,
        trigger_condition: OrderTriggerCondition::Above,
        base_asset_amount: 10,
        base_asset_amount_filled: 0,
        oracle_price_offset: 0,
        slot: 1,
        auction_duration: 10,
        post_only: false,
    }
}

fn ids(list: &NodeList) -> Vec<u32> {
    list.nodes().iter().map(|n| n.order.order_id).collect()
}

#[test]
fn ascending_list_orders_by_price() {
    let mut list = NodeList::new(DLOBNodeType::RestingLimit, SortDirection::Asc);
    list.insert(limit(1, 105), user(1));
    list.insert(limit(2, 100), user(1));
    list.insert(limit(3, 110), user(1));
    assert_eq!(ids(&list), vec![2, 1, 3]);
    assert_eq!(list.len(), 3);
}

#[test]
fn descending_list_puts_new_best_at_head() {
    let mut list = NodeList::new(DLOBNodeType::RestingLimit, SortDirection::Desc);
    list.insert(limit(1, 100), user(1));
    list.insert(limit(2, 105), user(1));
    list.insert(limit(3, 102), user(1));
    assert_eq!(ids(&list), vec![2, 3, 1]);
}

#[test]
fn equal_prices_keep_arrival_order() {
    let mut list = NodeList::new(DLOBNodeType::TakingLimit, SortDirection::Asc);
    list.insert(limit(1, 100), user(1));
    list.insert(limit(2, 100), user(2));
    list.insert(limit(3, 100), user(3));
    list.insert(limit(4, 99), user(4));
    assert_eq!(ids(&list), vec![4, 1, 2, 3]);
}

#[test]
fn sorted_after_mixed_inserts_and_removes() {
    let mut list = NodeList::new(DLOBNodeType::RestingLimit, SortDirection::Desc);
    for (i, p) in [5u64, 9, 1, 7, 7, 3, 9].iter().enumerate() {
        list.insert(limit(i as u32, *p), user(1));
    }
    list.remove(limit(1, 9), user(1));
    list.remove(limit(3, 7), user(1));
    let nodes = list.nodes();
    for w in nodes.windows(2) {
        assert!(w[0].sort_value >= w[1].sort_value);
    }
    assert_eq!(ids(&list), vec![6, 4, 0, 5, 2]);
}

#[test]
fn duplicate_insert_changes_nothing() {
    let mut list = NodeList::new(DLOBNodeType::RestingLimit, SortDirection::Asc);
    list.insert(limit(1, 100), user(1));
    list.insert(limit(2, 90), user(1));
    list.insert(limit(1, 100), user(1));
    list.insert(limit(1, 80), user(1));
    assert_eq!(list.len(), 2);
    assert_eq!(ids(&list), vec![2, 1]);
}

#[test]
fn same_order_id_of_other_owner_is_distinct() {
    let mut list = NodeList::new(DLOBNodeType::RestingLimit, SortDirection::Asc);
    list.insert(limit(1, 100), user(1));
    list.insert(limit(1, 100), user(2));
    assert_eq!(list.len(), 2);
    assert!(list.has(limit(1, 0), user(2)));
    assert!(!list.has(limit(1, 0), user(3)));
}

#[test]
fn init_order_is_not_inserted() {
    let mut list = NodeList::new(DLOBNodeType::RestingLimit, SortDirection::Asc);
    let mut o = limit(1, 100);
    o.status = OrderStatus::Init;
    list.insert(o, user(1));
    assert_eq!(list.len(), 0);
    assert!(!list.has(o, user(1)));
}

#[test]
fn remove_unlinks_node_and_absent_remove_is_noop() {
    let mut list = NodeList::new(DLOBNodeType::RestingLimit, SortDirection::Asc);
    list.insert(limit(1, 100), user(1));
    list.insert(limit(2, 101), user(1));
    list.remove(limit(1, 100), user(1));
    assert_eq!(list.len(), 1);
    assert_eq!(ids(&list), vec![2]);
    list.remove(limit(9, 100), user(1));
    list.remove(limit(1, 100), user(1));
    assert_eq!(list.len(), 1);
    list.remove(limit(2, 101), user(1));
    assert_eq!(list.len(), 0);
    list.remove(limit(2, 101), user(1));
    assert_eq!(list.len(), 0);
}

#[test]
fn length_counts_distinct_signatures() {
    let mut list = NodeList::new(DLOBNodeType::Market, SortDirection::Asc);
    list.insert(limit(1, 1), user(1));
    list.insert(limit(2, 1), user(1));
    list.insert(limit(1, 1), user(1));
    list.insert(limit(1, 1), user(2));
    list.remove(limit(2, 1), user(1));
    list.insert(limit(2, 1), user(1));
    assert_eq!(list.len(), 3);
}

#[test]
fn update_replaces_snapshot_in_place() {
    let mut list = NodeList::new(DLOBNodeType::RestingLimit, SortDirection::Asc);
    list.insert(limit(1, 100), user(1));
    list.insert(limit(2, 110), user(1));
    let mut o = limit(1, 100);
    o.base_asset_amount_filled = 4;
    list.update(o, user(1));
    let nodes = list.nodes();
    assert_eq!(nodes[0].order.order_id, 1);
    assert_eq!(nodes[0].order.base_asset_amount_filled, 4);
    list.update(limit(7, 1), user(1));
    assert_eq!(list.len(), 2);
}

#[test]
fn update_does_not_reposition() {
    let mut list = NodeList::new(DLOBNodeType::RestingLimit, SortDirection::Asc);
    list.insert(limit(1, 100), user(1));
    list.insert(limit(2, 110), user(1));
    list.update(limit(1, 120), user(1));
    assert_eq!(ids(&list), vec![1, 2]);
    assert_eq!(list.nodes()[0].sort_value, 120);
}

#[test]
fn signature_text_is_base58_key_dash_id() {
    assert_eq!(
        get_order_signature(7, &user(0)),
        "11111111111111111111111111111111-7".to_string()
    );
}

#[test]
fn signature_text_of_larger_ids_and_keys() {
    assert_eq!(
        get_order_signature(0, &user(0)),
        "11111111111111111111111111111111-0".to_string()
    );
    assert_eq!(
        get_order_signature(4294967295, &user(0)),
        "11111111111111111111111111111111-4294967295".to_string()
    );
    let mut key = [0u8; 32];
    key[31] = 1;
    assert_eq!(
        get_order_signature(120, &UserKey { bytes: key }),
        "11111111111111111111111111111112-120".to_string()
    );
    assert_ne!(get_order_signature(12, &user(1)), get_order_signature(1, &user(1)));
}

#[test]
fn get_finds_node_by_signature_text() {
    let mut list = NodeList::new(DLOBNodeType::TakingLimit, SortDirection::Desc);
    list.insert(limit(7, 100), user(0));
    list.insert(limit(8, 100), user(1));
    let hit = list.get(&"11111111111111111111111111111111-7".to_string());
    match hit {
        Some(DLOBNodeOrders::TakingLimit(n)) => assert_eq!(n.order.order_id, 7),
        _ => panic!("expected a taking-limit node"),
    }
    assert!(list.get(&"11111111111111111111111111111111-8".to_string()).is_none());
    assert!(list.get(&get_order_signature(8, &user(1))).is_some());
}

#[test]
fn get_by_key_tags_with_list_type() {
    let mut list = NodeList::new(DLOBNodeType::FloatingLimit, SortDirection::Asc);
    list.insert(limit(3, 50), user(4));
    let n = list.get_by_key(3, &user(4)).unwrap();
    assert_eq!(DLOBNodeType::from(n), DLOBNodeType::FloatingLimit);
    assert_eq!(n.sort_value(), 50);
    assert!(list.get_by_key(4, &user(4)).is_none());
}

#[test]
fn iter_walks_head_to_tail() {
    let mut list = NodeList::new(DLOBNodeType::RestingLimit, SortDirection::Asc);
    list.insert(limit(1, 3), user(1));
    list.insert(limit(2, 1), user(1));
    let mut it = list.iter();
    assert_eq!(it.next().unwrap().sort_value(), 1);
    assert_eq!(it.next().unwrap().sort_value(), 3);
    assert!(it.next().is_none());
    assert!(it.next().is_none());
}

#[test]
fn clear_empties_list() {
    let mut list = NodeList::new(DLOBNodeType::RestingLimit, SortDirection::Asc);
    list.insert(limit(1, 3), user(1));
    list.clear();
    assert_eq!(list.len(), 0);
    assert!(list.iter().next().is_none());
    list.insert(limit(1, 3), user(1));
    assert_eq!(list.len(), 1);
}

#[test]
fn node_accessors() {
    let mut o = limit(5, 42);
    o.base_asset_amount_filled = 10;
    let node = create_node(DLOBNodeType::Market, o, user(2));
    assert_eq!(DLOBNodeType::from(node), DLOBNodeType::Market);
    assert!(node.is_base_filled());
    assert!(!node.have_filled());
    assert!(!node.is_vamm_node());
    assert_eq!(node.sort_value(), 42);
    assert_eq!(node.order().unwrap().order_id, 5);
    assert_eq!(node.user_account().unwrap().bytes, [2; 32]);
    let oracle = OraclePriceData {
        price: -17,
        confidence: 1,
        delay: 0,
        has_sufficient_number_of_data_points: true,
    };
    assert_eq!(node.get_price(&oracle, 9), -17);
    assert_eq!(OrderNode::get_sort_value(&limit(1, 77)), 77);
}
