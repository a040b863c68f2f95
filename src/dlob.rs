//! The order book registry: per market type and market index, ten sorted
//! node lists, and the rules that route an order into one of them.

use vstd::prelude::*;

use crate::dlob_node::{sort_value_of, DLOBNodeType, OrderNode};
use crate::dlob_orders::{DLOBOrders, OrderRecord};
use crate::node_list::{
    contains_sig, inserted, keeps_sort_value, lemma_inserted_contains, lemma_inserted_sorted,
    lemma_no_init_kept, lemma_removed_absent, lemma_removed_sorted, lemma_sig_index, lemma_updated_sorted, no_init,
    node_sig, precedes, removed, sig_index,
    sorted, updated, NodeList, SortDirection,
};
pub use crate::order::MarketType;
use crate::order::{
    must_be_triggered_spec, resting_limit_spec, signature_view, Order, OrderSignature,
    OrderStatus, OrderTriggerCondition, OrderType, PositionDirection, UserKey,
};

verus! {

#[derive(Clone, Copy, Debug, PartialEq, Eq, Structural)]
pub enum Side {
    Bid,
    Ask,
}

/// Which list of a classification an order goes to: a side of the book, or
/// for a pending trigger order the direction it waits for.
#[derive(Clone, Copy, Debug, PartialEq, Eq, Structural)]
pub enum OrderSubType {
    Trigger(OrderTriggerCondition),
    Side(Side),
}

/// The number of lists each market holds.
pub const CELL_COUNT: usize = 10;

/// A trigger order whose price condition has not fired yet.
pub open spec fn is_inactive_trigger(o: Order) -> bool {
    must_be_triggered_spec(o.order_type) && (o.trigger_condition == OrderTriggerCondition::Above
        || o.trigger_condition == OrderTriggerCondition::Below)
}

pub open spec fn is_market_like(t: OrderType) -> bool {
    t == OrderType::Market || t == OrderType::TriggerMarket || t == OrderType::Oracle
}

/// The classification of `o` at `slot`.
pub open spec fn node_type_spec(o: Order, slot: u64) -> DLOBNodeType {
    if is_inactive_trigger(o) {
        DLOBNodeType::Trigger
    } else if is_market_like(o.order_type) {
        DLOBNodeType::Market
    } else if o.oracle_price_offset != 0 {
        DLOBNodeType::FloatingLimit
    } else if resting_limit_spec(o, slot) {
        DLOBNodeType::RestingLimit
    } else {
        DLOBNodeType::TakingLimit
    }
}

pub open spec fn sub_type_spec(o: Order, is_inactive_trigger_order: bool) -> OrderSubType {
    if is_inactive_trigger_order {
        if o.trigger_condition == OrderTriggerCondition::Above {
            OrderSubType::Trigger(OrderTriggerCondition::Above)
        } else {
            OrderSubType::Trigger(OrderTriggerCondition::Below)
        }
    } else if o.direction == PositionDirection::Long {
        OrderSubType::Side(Side::Bid)
    } else {
        OrderSubType::Side(Side::Ask)
    }
}

/// The list of a market that a classification and sub-type select:
/// 0..8 are ask and bid of resting, floating, taking and market orders,
/// 8 and 9 the trigger lists waiting for above and below.
pub open spec fn cell_for(kind: DLOBNodeType, sub: OrderSubType) -> int {
    let base: int = match kind {
        DLOBNodeType::RestingLimit => 0,
        DLOBNodeType::FloatingLimit => 2,
        DLOBNodeType::TakingLimit => 4,
        DLOBNodeType::Market => 6,
        DLOBNodeType::Trigger => 8,
    };
    let first = match kind {
        DLOBNodeType::Trigger => sub == OrderSubType::Trigger(OrderTriggerCondition::Above),
        _ => sub == OrderSubType::Side(Side::Ask),
    };
    if first {
        base
    } else {
        base + 1
    }
}

/// The list that `o` belongs in at `slot`.
pub open spec fn order_cell(o: Order, slot: u64) -> int {
    cell_for(node_type_spec(o, slot), sub_type_spec(o, node_type_spec(o, slot) == DLOBNodeType::Trigger))
}

pub open spec fn cell_kind(c: int) -> DLOBNodeType {
    if c < 2 {
        DLOBNodeType::RestingLimit
    } else if c < 4 {
        DLOBNodeType::FloatingLimit
    } else if c < 6 {
        DLOBNodeType::TakingLimit
    } else if c < 8 {
        DLOBNodeType::Market
    } else {
        DLOBNodeType::Trigger
    }
}

/// Best price first: asks and the trigger-above list ascend, bids and the
/// trigger-below list descend.
pub open spec fn cell_direction(c: int) -> SortDirection {
    if c % 2 == 0 {
        SortDirection::Asc
    } else {
        SortDirection::Desc
    }
}

/// Every order, whatever its type, trigger condition and oracle offset, is
/// routed to exactly one of a market's lists, and that list holds nodes of
/// the order's classification.
pub proof fn lemma_classification_total(o: Order, slot: u64)
    ensures
        0 <= order_cell(o, slot) < CELL_COUNT,
        cell_kind(order_cell(o, slot)) == node_type_spec(o, slot),
        (node_type_spec(o, slot) == DLOBNodeType::Trigger) == is_inactive_trigger(o),
        node_type_spec(o, slot) == DLOBNodeType::Trigger ==> order_cell(o, slot) == (if o.trigger_condition
            == OrderTriggerCondition::Above {
            8int
        } else {
            9int
        }),
        node_type_spec(o, slot) != DLOBNodeType::Trigger ==> order_cell(o, slot) % 2 == (if o.direction
            == PositionDirection::Long {
            1int
        } else {
            0int
        }),
{
}

pub fn determine_node_type(order: &Order, slot: u64) -> (r: DLOBNodeType)
    ensures
        r == node_type_spec(*order, slot),
{
    let pending = match order.trigger_condition {
        OrderTriggerCondition::Above | OrderTriggerCondition::Below => true,
        _ => false,
    };
    if pending && order.must_be_triggered() {
        DLOBNodeType::Trigger
    } else if match order.order_type {
        OrderType::Market | OrderType::TriggerMarket | OrderType::Oracle => true,
        _ => false,
    } {
        DLOBNodeType::Market
    } else if order.oracle_price_offset != 0 {
        DLOBNodeType::FloatingLimit
    } else if order.is_resting_limit_order(slot) {
        DLOBNodeType::RestingLimit
    } else {
        DLOBNodeType::TakingLimit
    }
}

pub fn determine_sub_type(order: &Order, is_inactive_trigger_order: bool) -> (r: OrderSubType)
    ensures
        r == sub_type_spec(*order, is_inactive_trigger_order),
{
    if is_inactive_trigger_order {
        OrderSubType::Trigger(
            match order.trigger_condition {
                OrderTriggerCondition::Above => OrderTriggerCondition::Above,
                _ => OrderTriggerCondition::Below,
            },
        )
    } else {
        OrderSubType::Side(
            match order.direction {
                PositionDirection::Long => Side::Bid,
                _ => Side::Ask,
            },
        )
    }
}

fn cell_index(kind: DLOBNodeType, sub: OrderSubType) -> (r: usize)
    ensures
        r == cell_for(kind, sub),
        r < CELL_COUNT,
{
    let base: usize = match kind {
        DLOBNodeType::RestingLimit => 0,
        DLOBNodeType::FloatingLimit => 2,
        DLOBNodeType::TakingLimit => 4,
        DLOBNodeType::Market => 6,
        DLOBNodeType::Trigger => 8,
    };
    let first = match kind {
        DLOBNodeType::Trigger => match sub {
            OrderSubType::Trigger(OrderTriggerCondition::Above) => true,
            _ => false,
        },
        _ => match sub {
            OrderSubType::Side(Side::Ask) => true,
            _ => false,
        },
    };
    if first {
        base
    } else {
        base + 1
    }
}

/// The list of a market that `order` belongs in at `slot`.
pub fn cell_for_order(order: &Order, slot: u64) -> (r: usize)
    ensures
        r == order_cell(*order, slot),
        r < CELL_COUNT,
{
    let node_type = determine_node_type(order, slot);
    let is_inactive_trigger_order = node_type == DLOBNodeType::Trigger;
    let sub_type = determine_sub_type(order, is_inactive_trigger_order);
    cell_index(node_type, sub_type)
}

pub struct SideNodeList {
    pub ask: NodeList,
    pub bid: NodeList,
}

pub struct TriggerNodeList {
    pub above: NodeList,
    pub below: NodeList,
}

/// The ten lists of one market.
pub struct MarketNodeLists {
    pub resting_limit: SideNodeList,
    pub floating_limit: SideNodeList,
    pub taking_limit: SideNodeList,
    pub market: SideNodeList,
    pub trigger: TriggerNodeList,
}

/// What a change to one list does.
#[derive(Clone, Copy, Debug, PartialEq, Eq, Structural)]
pub enum ListChange {
    Insert,
    Update,
    Remove,
}

pub open spec fn changed(
    change: ListChange,
    dir: SortDirection,
    s: Seq<OrderNode>,
    order: Order,
    user: UserKey,
) -> Seq<OrderNode> {
    match change {
        ListChange::Insert => inserted(dir, s, order, user),
        ListChange::Update => updated(s, order, user),
        ListChange::Remove => removed(s, signature_view(user, order.order_id)),
    }
}

fn apply_change(list: &mut NodeList, change: ListChange, order: Order, user: UserKey)
    requires
        old(list).wf(),
    ensures
        final(list).wf(),
        final(list)@ == changed(change, old(list).direction(), old(list)@, order, user),
        final(list).kind() == old(list).kind(),
        final(list).direction() == old(list).direction(),
{
    match change {
        ListChange::Insert => list.insert(order, user),
        ListChange::Update => list.update(order, user),
        ListChange::Remove => list.remove(order, user),
    }
}

impl MarketNodeLists {
    pub open spec fn cell(&self, c: int) -> NodeList {
        if c == 0 {
            self.resting_limit.ask
        } else if c == 1 {
            self.resting_limit.bid
        } else if c == 2 {
            self.floating_limit.ask
        } else if c == 3 {
            self.floating_limit.bid
        } else if c == 4 {
            self.taking_limit.ask
        } else if c == 5 {
            self.taking_limit.bid
        } else if c == 6 {
            self.market.ask
        } else if c == 7 {
            self.market.bid
        } else if c == 8 {
            self.trigger.above
        } else {
            self.trigger.below
        }
    }

    pub open spec fn wf(&self) -> bool {
        forall|c: int|
            0 <= c < CELL_COUNT ==> (#[trigger] self.cell(c)).wf() && self.cell(c).kind()
                == cell_kind(c) && self.cell(c).direction() == cell_direction(c) && no_init(
                self.cell(c)@,
            )
    }

    pub fn new() -> (r: MarketNodeLists)
        ensures
            r.wf(),
            forall|c: int| 0 <= c < CELL_COUNT ==> (#[trigger] r.cell(c))@.len() == 0,
    {
        MarketNodeLists {
            resting_limit: SideNodeList {
                ask: NodeList::new(DLOBNodeType::RestingLimit, SortDirection::Asc),
                bid: NodeList::new(DLOBNodeType::RestingLimit, SortDirection::Desc),
            },
            floating_limit: SideNodeList {
                ask: NodeList::new(DLOBNodeType::FloatingLimit, SortDirection::Asc),
                bid: NodeList::new(DLOBNodeType::FloatingLimit, SortDirection::Desc),
            },
            taking_limit: SideNodeList {
                ask: NodeList::new(DLOBNodeType::TakingLimit, SortDirection::Asc),
                bid: NodeList::new(DLOBNodeType::TakingLimit, SortDirection::Desc),
            },
            market: SideNodeList {
                ask: NodeList::new(DLOBNodeType::Market, SortDirection::Asc),
                bid: NodeList::new(DLOBNodeType::Market, SortDirection::Desc),
            },
            trigger: TriggerNodeList {
                above: NodeList::new(DLOBNodeType::Trigger, SortDirection::Asc),
                below: NodeList::new(DLOBNodeType::Trigger, SortDirection::Desc),
            },
        }
    }

    pub fn cell_ref(&self, c: usize) -> (r: &NodeList)
        requires
            c < CELL_COUNT,
        ensures
            *r == self.cell(c as int),
    {
        if c == 0 {
            &self.resting_limit.ask
        } else if c == 1 {
            &self.resting_limit.bid
        } else if c == 2 {
            &self.floating_limit.ask
        } else if c == 3 {
            &self.floating_limit.bid
        } else if c == 4 {
            &self.taking_limit.ask
        } else if c == 5 {
            &self.taking_limit.bid
        } else if c == 6 {
            &self.market.ask
        } else if c == 7 {
            &self.market.bid
        } else if c == 8 {
            &self.trigger.above
        } else {
            &self.trigger.below
        }
    }

    /// Applies one change to list `c`, leaving the other lists as they were.
    pub fn change_cell(&mut self, c: usize, change: ListChange, order: Order, user: UserKey)
        requires
            old(self).wf(),
            c < CELL_COUNT,
            change == ListChange::Update ==> order.status != OrderStatus::Init,
        ensures
            final(self).wf(),
            final(self).cell(c as int)@ == changed(
                change,
                cell_direction(c as int),
                old(self).cell(c as int)@,
                order,
                user,
            ),
            forall|d: int|
                0 <= d < CELL_COUNT && d != c ==> #[trigger] final(self).cell(d) == old(self).cell(d),
    {
        if c == 0 {
            apply_change(&mut self.resting_limit.ask, change, order, user);
        } else if c == 1 {
            apply_change(&mut self.resting_limit.bid, change, order, user);
        } else if c == 2 {
            apply_change(&mut self.floating_limit.ask, change, order, user);
        } else if c == 3 {
            apply_change(&mut self.floating_limit.bid, change, order, user);
        } else if c == 4 {
            apply_change(&mut self.taking_limit.ask, change, order, user);
        } else if c == 5 {
            apply_change(&mut self.taking_limit.bid, change, order, user);
        } else if c == 6 {
            apply_change(&mut self.market.ask, change, order, user);
        } else if c == 7 {
            apply_change(&mut self.market.bid, change, order, user);
        } else if c == 8 {
            apply_change(&mut self.trigger.above, change, order, user);
        } else {
            apply_change(&mut self.trigger.below, change, order, user);
        }
        proof {
            assert(old(self).cell(c as int).direction() == cell_direction(c as int));
            lemma_no_init_kept(old(self).cell(c as int)@, order, user, cell_direction(c as int));
            assert forall|d: int| 0 <= d < CELL_COUNT implies (#[trigger] final(self).cell(d)).wf()
                && final(self).cell(d).kind() == cell_kind(d) && final(self).cell(d).direction()
                == cell_direction(d) && no_init(final(self).cell(d)@) by {
                assert(old(self).cell(d).wf());
            }
        }
    }
}

/// The nodes of a taking list that stay there at `slot`: those whose order is
/// not yet a resting limit order.
pub open spec fn still_taking(s: Seq<OrderNode>, slot: u64) -> Seq<OrderNode>
    decreases s.len(),
{
    if s.len() == 0 {
        s
    } else {
        let p = still_taking(s.drop_last(), slot);
        if resting_limit_spec(s.last().order, slot) {
            p
        } else {
            p.push(s.last())
        }
    }
}

/// A resting list after inserting, head first, each taking node whose order
/// rests at `slot`.
pub open spec fn promoted(
    dir: SortDirection,
    resting: Seq<OrderNode>,
    takers: Seq<OrderNode>,
    slot: u64,
) -> Seq<OrderNode>
    decreases takers.len(),
{
    if takers.len() == 0 {
        resting
    } else {
        let r = promoted(dir, resting, takers.drop_last(), slot);
        let n = takers.last();
        if resting_limit_spec(n.order, slot) {
            inserted(dir, r, n.order, n.user_account)
        } else {
            r
        }
    }
}

/// List `d` of market `m` after the sweep at `slot`: eligible taking orders
/// move into the resting list of their side.
pub open spec fn swept_cell(m: MarketNodeLists, slot: u64, d: int) -> Seq<OrderNode> {
    if d == 0 {
        promoted(cell_direction(0), m.cell(0)@, m.cell(4)@, slot)
    } else if d == 1 {
        promoted(cell_direction(1), m.cell(1)@, m.cell(5)@, slot)
    } else if d == 4 || d == 5 {
        still_taking(m.cell(d)@, slot)
    } else {
        m.cell(d)@
    }
}

pub open spec fn market_swept(m: MarketNodeLists, m2: MarketNodeLists, slot: u64) -> bool {
    forall|d: int| 0 <= d < CELL_COUNT ==> #[trigger] m2.cell(d)@ == swept_cell(m, slot, d)
}

impl MarketNodeLists {
    /// Moves each node of taking list `from` whose order rests at `slot` into
    /// resting list `to`, in list order.
    fn promote_side(&mut self, from: usize, to: usize, slot: u64)
        requires
            old(self).wf(),
            (from == 4 && to == 0) || (from == 5 && to == 1),
        ensures
            final(self).wf(),
            final(self).cell(to as int)@ == promoted(
                cell_direction(to as int),
                old(self).cell(to as int)@,
                old(self).cell(from as int)@,
                slot,
            ),
            final(self).cell(from as int)@ == still_taking(old(self).cell(from as int)@, slot),
            forall|d: int|
                0 <= d < CELL_COUNT && d != from && d != to ==> #[trigger] final(self).cell(d)
                    == old(self).cell(d),
    {
        let takers = self.cell_ref(from).nodes();
        let ghost t = takers@;
        let ghost r0 = self.cell(to as int)@;
        let ghost m0 = *self;
        let mut i: usize = 0;
        proof {
            assert(t.subrange(0, 0).len() == 0);
            assert(t.subrange(0, t.len() as int) =~= t);
            assert(still_taking(t.subrange(0, 0), slot) + t.subrange(0, t.len() as int) =~= t);
        }
        while i < takers.len()
            invariant
                self.wf(),
                (from == 4 && to == 0) || (from == 5 && to == 1),
                0 <= i <= t.len(),
                takers@ == t,
                self.cell(from as int)@ == still_taking(t.subrange(0, i as int), slot) + t.subrange(
                    i as int,
                    t.len() as int,
                ),
                self.cell(to as int)@ == promoted(cell_direction(to as int), r0, t.subrange(0, i as int), slot),
                forall|d: int|
                    0 <= d < CELL_COUNT && d != from && d != to ==> #[trigger] self.cell(d)
                        == m0.cell(d),
            decreases t.len() - i,
        {
            let n = takers[i];
            let ghost p = still_taking(t.subrange(0, i as int), slot);
            let ghost cur = self.cell(from as int)@;
            proof {
                let pre = t.subrange(0, i as int + 1);
                assert(pre.drop_last() =~= t.subrange(0, i as int));
                assert(pre.last() == t[i as int]);
            }
            if n.order.is_resting_limit_order(slot) {
                proof {
                    assert(cur[p.len() as int] == n);
                    assert(self.cell(from as int).wf());
                    lemma_sig_index(
                        cur,
                        signature_view(n.user_account, n.order.order_id),
                        p.len() as int,
                    );
                    assert(cur.remove(p.len() as int) =~= p + t.subrange(i as int + 1, t.len() as int));
                }
                self.change_cell(from, ListChange::Remove, n.order, n.user_account);
                self.change_cell(to, ListChange::Insert, n.order, n.user_account);
            } else {
                proof {
                    assert(cur =~= p.push(n) + t.subrange(i as int + 1, t.len() as int));
                }
            }
            i = i + 1;
        }
        proof {
            assert(t.subrange(0, t.len() as int) =~= t);
            assert(t.subrange(t.len() as int, t.len() as int) =~= Seq::<OrderNode>::empty());
            assert(still_taking(t, slot) + Seq::<OrderNode>::empty() =~= still_taking(t, slot));
        }
    }

    /// Runs the sweep at `slot` on both sides of this market.
    fn sweep(&mut self, slot: u64)
        requires
            old(self).wf(),
        ensures
            final(self).wf(),
            market_swept(*old(self), *final(self), slot),
    {
        let ghost m0 = *self;
        self.promote_side(4, 0, slot);
        self.promote_side(5, 1, slot);
        proof {
            assert forall|d: int| 0 <= d < CELL_COUNT implies #[trigger] self.cell(d)@ == swept_cell(
                m0,
                slot,
                d,
            ) by {}
        }
    }
}

fn sweep_markets(ms: &mut Vec<Option<MarketNodeLists>>, slot: u64)
    requires
        markets_wf(old(ms)@),
    ensures
        markets_wf(final(ms)@),
        forall|j: u16|
            (#[trigger] lookup(final(ms)@, j) is Some) == (lookup(old(ms)@, j) is Some),
        forall|j: u16|
            #[trigger] lookup(old(ms)@, j) matches Some(m) ==> market_swept(
                m,
                lookup(final(ms)@, j)->Some_0,
                slot,
            ),
{
    let ghost s0 = ms@;
    let mut i: usize = 0;
    while i < ms.len()
        invariant
            markets_wf(ms@),
            ms@.len() == s0.len(),
            0 <= i <= s0.len(),
            forall|j: int|
                0 <= j < s0.len() ==> (#[trigger] ms@[j] is Some) == (s0[j] is Some),
            forall|j: int|
                0 <= j < i ==> (#[trigger] s0[j] matches Some(m) ==> market_swept(
                    m,
                    ms@[j]->Some_0,
                    slot,
                )),
            forall|j: int| i <= j < s0.len() ==> #[trigger] ms@[j] == s0[j],
        decreases s0.len() - i,
    {
        let ghost before = ms@;
        match &mut ms[i] {
            Some(m) => {
                proof {
                    assert(before[i as int] matches Some(mm) && mm.wf());
                }
                m.sweep(slot);
            },
            None => {},
        }
        i = i + 1;
    }
    proof {
        assert forall|j: u16| #[trigger] lookup(s0, j) is Some implies market_swept(
            lookup(s0, j)->Some_0,
            lookup(ms@, j)->Some_0,
            slot,
        ) by {
            assert(s0[j as int] is Some);
        }
    }
}

pub open spec fn lookup(ms: Seq<Option<MarketNodeLists>>, idx: u16) -> Option<MarketNodeLists> {
    if (idx as int) < ms.len() {
        ms[idx as int]
    } else {
        None
    }
}

/// Market `idx` sits at position `idx`, and every market's lists are well formed.
pub open spec fn markets_wf(ms: Seq<Option<MarketNodeLists>>) -> bool {
    forall|i: int| 0 <= i < ms.len() ==> (#[trigger] ms[i] matches Some(m) ==> m.wf())
}

pub open spec fn signature_set(v: Seq<OrderSignature>) -> Set<(Seq<u8>, u32)> {
    Set::new(|x: (Seq<u8>, u32)| exists|i: int| 0 <= i < v.len() && (#[trigger] v[i])@ == x)
}

fn ensure_market(ms: &mut Vec<Option<MarketNodeLists>>, idx: u16)
    requires
        markets_wf(old(ms)@),
    ensures
        markets_wf(final(ms)@),
        lookup(final(ms)@, idx) is Some,
        lookup(old(ms)@, idx) is Some ==> lookup(final(ms)@, idx) == lookup(old(ms)@, idx),
        lookup(old(ms)@, idx) is None ==> forall|c: int|
            0 <= c < CELL_COUNT ==> (#[trigger] lookup(final(ms)@, idx)->Some_0.cell(c))@.len()
                == 0,
        forall|j: u16| j != idx ==> #[trigger] lookup(final(ms)@, j) == lookup(old(ms)@, j),
{
    let ghost s0 = ms@;
    let i = idx as usize;
    while ms.len() <= i
        invariant
            markets_wf(ms@),
            forall|j: u16| #[trigger] lookup(ms@, j) == lookup(s0, j),
        decreases i + 1 - ms@.len(),
    {
        let ghost before = ms@;
        ms.push(None);
        proof {
            assert forall|j: u16| #[trigger] lookup(ms@, j) == lookup(s0, j) by {
                assert(lookup(ms@, j) == lookup(before, j));
            }
        }
    }
    assert(lookup(ms@, idx) == lookup(s0, idx));
    if ms[i].is_none() {
        let ghost before = ms@;
        ms.set(i, Some(MarketNodeLists::new()));
        proof {
            assert forall|j: u16| j != idx implies #[trigger] lookup(ms@, j) == lookup(s0, j) by {
                assert(lookup(ms@, j) == lookup(before, j));
            }
        }
    }
}

fn change_market(
    ms: &mut Vec<Option<MarketNodeLists>>,
    idx: u16,
    c: usize,
    change: ListChange,
    order: Order,
    user: UserKey,
)
    requires
        markets_wf(old(ms)@),
        c < CELL_COUNT,
        change == ListChange::Update ==> order.status != OrderStatus::Init,
    ensures
        markets_wf(final(ms)@),
        forall|j: u16| j != idx ==> #[trigger] lookup(final(ms)@, j) == lookup(old(ms)@, j),
        lookup(old(ms)@, idx) is None ==> lookup(final(ms)@, idx) is None,
        lookup(old(ms)@, idx) matches Some(m) ==> lookup(final(ms)@, idx) matches Some(m2) && m2.cell(
            c as int,
        )@ == changed(change, cell_direction(c as int), m.cell(c as int)@, order, user) && forall|
            d: int,
        | 0 <= d < CELL_COUNT && d != c ==> #[trigger] m2.cell(d) == m.cell(d),
{
    let i = idx as usize;
    if i < ms.len() {
        let ghost before = ms@;
        match &mut ms[i] {
            Some(m) => {
                proof {
                    assert(before[i as int] matches Some(mm) && mm.wf());
                }
                m.change_cell(c, change, order, user);
            },
            None => {},
        }
        proof {
            assert forall|j: u16| j != idx implies #[trigger] lookup(ms@, j) == lookup(before, j) by {}
        }
    }
}

/// The distributed limit order book.
pub struct DLOB {
    perp_open_orders: Vec<OrderSignature>,
    spot_open_orders: Vec<OrderSignature>,
    perp_markets: Vec<Option<MarketNodeLists>>,
    spot_markets: Vec<Option<MarketNodeLists>>,
    max_slot_for_resting_limit_orders: u64,
    initialized: bool,
}

impl DLOB {
    pub closed spec fn markets_of(&self, mt: MarketType) -> Seq<Option<MarketNodeLists>> {
        match mt {
            MarketType::Perp => self.perp_markets@,
            MarketType::Spot => self.spot_markets@,
        }
    }

    /// The lists of market `idx` of type `mt`, once that market has been seen.
    pub open spec fn market(&self, mt: MarketType, idx: u16) -> Option<MarketNodeLists> {
        lookup(self.markets_of(mt), idx)
    }

    pub open spec fn has_market(&self, mt: MarketType, idx: u16) -> bool {
        self.market(mt, idx) is Some
    }

    /// The nodes of list `c` of a market; empty for a market not seen yet.
    pub open spec fn nodes(&self, mt: MarketType, idx: u16, c: int) -> Seq<OrderNode> {
        match self.market(mt, idx) {
            Some(m) => m.cell(c)@,
            None => Seq::empty(),
        }
    }

    /// The signatures of the orders seen open on markets of type `mt`.
    pub closed spec fn open_orders(&self, mt: MarketType) -> Set<(Seq<u8>, u32)> {
        match mt {
            MarketType::Perp => signature_set(self.perp_open_orders@),
            MarketType::Spot => signature_set(self.spot_open_orders@),
        }
    }

    /// The highest slot at which the resting sweep has run.
    pub closed spec fn watermark(&self) -> u64 {
        self.max_slot_for_resting_limit_orders
    }

    pub closed spec fn is_initialized(&self) -> bool {
        self.initialized
    }

    pub open spec fn wf(&self) -> bool {
        markets_wf(self.markets_of(MarketType::Perp)) && markets_wf(
            self.markets_of(MarketType::Spot),
        )
    }

    /// Everything is empty: no market, no list, no open order, watermark 0.
    pub open spec fn is_empty_book(&self) -> bool {
        &&& forall|mt: MarketType, idx: u16| !(#[trigger] self.has_market(mt, idx))
        &&& forall|mt: MarketType| #[trigger] self.open_orders(mt) == Set::<(Seq<u8>, u32)>::empty()
        &&& self.watermark() == 0
        &&& all_lists(self).len() == 0
    }

    pub fn new() -> (r: DLOB)
        ensures
            r.wf(),
            r.is_empty_book(),
            sorted_book(&r),
            !r.is_initialized(),
    {
        let r = DLOB {
            perp_open_orders: Vec::new(),
            spot_open_orders: Vec::new(),
            perp_markets: Vec::new(),
            spot_markets: Vec::new(),
            max_slot_for_resting_limit_orders: 0,
            initialized: false,
        };
        proof {
            assert forall|mt: MarketType| #[trigger] r.open_orders(mt) == Set::<
                (Seq<u8>, u32),
            >::empty() by {
                assert(r.open_orders(mt) =~= Set::<(Seq<u8>, u32)>::empty());
            }
        }
        r
    }

    pub fn initialize(&mut self)
        ensures
            final(self).is_initialized(),
            final(self).wf() == old(self).wf(),
            forall|mt: MarketType, idx: u16| #[trigger]
                final(self).market(mt, idx) == old(self).market(mt, idx),
            forall|mt: MarketType| #[trigger]
                final(self).open_orders(mt) == old(self).open_orders(mt),
            final(self).watermark() == old(self).watermark(),
    {
        self.initialized = true;
    }

    pub fn is_ready(&self) -> (r: bool)
        ensures
            r == self.is_initialized(),
    {
        self.initialized
    }

    /// Whether the order was seen open on a market of type `market_type`.
    pub fn has_open_order(&self, market_type: MarketType, order_id: u32, user_account: UserKey) -> (r:
        bool)
        ensures
            r == self.open_orders(market_type).contains(signature_view(user_account, order_id)),
    {
        let v = match market_type {
            MarketType::Perp => &self.perp_open_orders,
            MarketType::Spot => &self.spot_open_orders,
        };
        assert(self.open_orders(market_type) == signature_set(v@));
        let sig = OrderSignature::new(order_id, user_account);
        let mut i: usize = 0;
        while i < v.len()
            invariant
                0 <= i <= v@.len(),
                forall|j: int| 0 <= j < i ==> (#[trigger] v@[j])@ != sig@,
                self.open_orders(market_type) == signature_set(v@),
                sig@ == signature_view(user_account, order_id),
            decreases v@.len() - i,
        {
            if v[i].same_as(&sig) {
                proof {
                    assert(v@[i as int]@ == sig@);
                    assert(signature_set(v@).contains(sig@));
                }
                return true;
            }
            i = i + 1;
        }
        false
    }

    pub fn max_slot_for_resting_limit_orders(&self) -> (r: u64)
        ensures
            r == self.watermark(),
    {
        self.max_slot_for_resting_limit_orders
    }

    /// Empties every list and open-order set, resets the sweep watermark,
    /// and leaves the book initialized.
    pub fn clear(&mut self)
        ensures
            final(self).wf(),
            final(self).is_empty_book(),
            sorted_book(final(self)),
            final(self).is_initialized(),
    {
        self.perp_open_orders = Vec::new();
        self.spot_open_orders = Vec::new();
        self.perp_markets = Vec::new();
        self.spot_markets = Vec::new();
        self.max_slot_for_resting_limit_orders = 0;
        self.initialized = true;
        proof {
            assert forall|mt: MarketType| #[trigger] self.open_orders(mt) == Set::<
                (Seq<u8>, u32),
            >::empty() by {
                assert(self.open_orders(mt) =~= Set::<(Seq<u8>, u32)>::empty());
            }
        }
    }

    /// Adds a signature to a set of open orders, unless it is there already.
    fn add_open_order(v: &mut Vec<OrderSignature>, sig: OrderSignature)
        ensures
            signature_set(final(v)@) == signature_set(old(v)@).insert(sig@),
    {
        let mut i: usize = 0;
        while i < v.len()
            invariant
                0 <= i <= v@.len(),
                forall|j: int| 0 <= j < i ==> (#[trigger] v@[j])@ != sig@,
            decreases v@.len() - i,
        {
            if v[i].same_as(&sig) {
                proof {
                    assert(signature_set(v@) =~= signature_set(v@).insert(sig@));
                }
                return;
            }
            i = i + 1;
        }
        let ghost before = v@;
        v.push(sig);
        proof {
            assert(v@[before.len() as int] == sig);
            assert forall|x: (Seq<u8>, u32)| #[trigger] signature_set(v@).contains(x) == signature_set(
                before,
            ).insert(sig@).contains(x) by {
                if signature_set(before).contains(x) {
                    let j = choose|j: int| 0 <= j < before.len() && (#[trigger] before[j])@ == x;
                    assert(v@[j] == before[j]);
                }
                if signature_set(v@).contains(x) && x != sig@ {
                    let j = choose|j: int| 0 <= j < v@.len() && (#[trigger] v@[j])@ == x;
                    assert(before[j] == v@[j]);
                }
            }
            assert(signature_set(v@) =~= signature_set(before).insert(sig@));
        }
    }

    /// Routes an order into the list its classification at `slot` selects,
    /// creating the market's lists on first sight and recording open orders.
    pub fn insert_order(&mut self, order: Order, user_account: UserKey, slot: u64)
        requires
            old(self).wf(),
        ensures
            final(self).wf(),
            insert_post(old(self), final(self), order, user_account, slot),
            sorted_book(old(self)) ==> sorted_book(final(self)),
    {
        self.insert_routed(order, user_account, slot);
        proof {
            if sorted_book(old(self)) && order.status != OrderStatus::Init {
                let mt = order.market_type;
                let idx = order.market_index;
                let c = order_cell(order, slot);
                assert forall|mt2: MarketType, idx2: u16, d: int| 0 <= d < CELL_COUNT implies sorted(
                    cell_direction(d),
                    #[trigger] self.nodes(mt2, idx2, d),
                ) by {
                    assert(sorted(cell_direction(d), old(self).nodes(mt2, idx2, d)));
                    if mt2 == mt && idx2 == idx && d == c {
                        lemma_inserted_sorted(cell_direction(c), old(self).nodes(mt, idx, c), order, user_account);
                    } else if mt2 != mt || idx2 != idx {
                        assert(self.market(mt2, idx2) == old(self).market(mt2, idx2));
                    }
                }
            }
        }
    }

    /// The routing of `insert_order`, before its sort-order argument.
    fn insert_routed(&mut self, order: Order, user_account: UserKey, slot: u64)
        requires
            old(self).wf(),
        ensures
            final(self).wf(),
            insert_post(old(self), final(self), order, user_account, slot),
    {
        if order.status == OrderStatus::Init {
            return;
        }
        let idx = order.market_index;
        let c = cell_for_order(&order, slot);
        let ghost old_self = *self;
        match order.market_type {
            MarketType::Perp => {
                ensure_market(&mut self.perp_markets, idx);
                let ghost mid = self.perp_markets@;
                change_market(&mut self.perp_markets, idx, c, ListChange::Insert, order, user_account);
                if order.status == OrderStatus::Open {
                    Self::add_open_order(&mut self.perp_open_orders, order.signature(user_account));
                }
                proof {
                    assert forall|d: int| 0 <= d < CELL_COUNT implies #[trigger] lookup(mid, idx)->Some_0.cell(d)@
                        == old_self.nodes(MarketType::Perp, idx, d) by {}
                }
            },
            MarketType::Spot => {
                ensure_market(&mut self.spot_markets, idx);
                let ghost mid = self.spot_markets@;
                change_market(&mut self.spot_markets, idx, c, ListChange::Insert, order, user_account);
                if order.status == OrderStatus::Open {
                    Self::add_open_order(&mut self.spot_open_orders, order.signature(user_account));
                }
                proof {
                    assert forall|d: int| 0 <= d < CELL_COUNT implies #[trigger] lookup(mid, idx)->Some_0.cell(d)@
                        == old_self.nodes(MarketType::Spot, idx, d) by {}
                }
            },
        }
    }

    /// Runs the sweep at `slot` unless it already ran at that slot or a later one.
    pub fn update_resting_limit_orders(&mut self, slot: u64)
        requires
            old(self).wf(),
        ensures
            sweep_post(old(self), final(self), slot),
            slot <= old(self).watermark() ==> *final(self) == *old(self),
            sweep_keeps_orders(old(self), final(self), slot),
            sorted_book(old(self)) ==> sorted_book(final(self)),
    {
        if slot <= self.max_slot_for_resting_limit_orders {
            return;
        }
        self.max_slot_for_resting_limit_orders = slot;
        sweep_markets(&mut self.perp_markets, slot);
        sweep_markets(&mut self.spot_markets, slot);
        proof {
            let a = old(self);
            assert forall|mt: MarketType, idx: u16, d: int|
                0 <= d < CELL_COUNT implies #[trigger] self.nodes(mt, idx, d)
                == swept_nodes(a, slot, mt, idx, d) by {
                assert(lookup(a.markets_of(mt), idx) is Some == lookup(self.markets_of(mt), idx) is Some);
                if a.market(mt, idx) is Some {
                    assert(market_swept(a.market(mt, idx)->Some_0, self.market(mt, idx)->Some_0, slot));
                }
            }
            assert forall|mt: MarketType, idx: u16| #[trigger] self.has_market(mt, idx) == a.has_market(mt, idx) by {
                assert(lookup(a.markets_of(mt), idx) is Some == lookup(self.markets_of(mt), idx) is Some);
            }
            if sorted_book(a) {
                lemma_sweep_post_sorted(a, self, slot);
            }
            lemma_sweep_keeps_orders(a, self, slot);
        }
    }

    fn has_market_exec(&self, mt: MarketType, idx: u16) -> (r: bool)
        ensures
            r == self.has_market(mt, idx),
    {
        let ms = match mt {
            MarketType::Perp => &self.perp_markets,
            MarketType::Spot => &self.spot_markets,
        };
        (idx as usize) < ms.len() && ms[idx as usize].is_some()
    }

    /// Applies one change to list `c` of market `idx` of type `mt`, if that
    /// market has been seen.
    fn change_list(
        &mut self,
        mt: MarketType,
        idx: u16,
        c: usize,
        change: ListChange,
        order: Order,
        user: UserKey,
    )
        requires
            old(self).wf(),
            c < CELL_COUNT,
            change == ListChange::Update ==> order.status != OrderStatus::Init,
        ensures
            one_list_changed(
                old(self),
                final(self),
                mt,
                idx,
                c as int,
                if old(self).has_market(mt, idx) {
                    changed(change, cell_direction(c as int), old(self).nodes(mt, idx, c as int), order, user)
                } else {
                    old(self).nodes(mt, idx, c as int)
                },
            ),
    {
        match mt {
            MarketType::Perp => change_market(&mut self.perp_markets, idx, c, change, order, user),
            MarketType::Spot => change_market(&mut self.spot_markets, idx, c, change, order, user),
        }
        proof {
            let a = old(self);
            assert forall|mt2: MarketType, idx2: u16|
                #[trigger] self.has_market(mt2, idx2) == a.has_market(mt2, idx2) by {
                if mt2 != mt || idx2 != idx {
                    assert(lookup(self.markets_of(mt2), idx2) == lookup(a.markets_of(mt2), idx2));
                }
            }
            assert forall|mt2: MarketType, idx2: u16|
                (mt2 != mt || idx2 != idx) implies #[trigger] self.market(mt2, idx2) == a.market(
                    mt2,
                    idx2,
                ) by {
                assert(lookup(self.markets_of(mt2), idx2) == lookup(a.markets_of(mt2), idx2));
            }
        }
    }

    /// Removes the order from the list it classifies into at `slot`, after
    /// running the sweep for `slot`.
    pub fn delete_order(&mut self, order: Order, user_account: UserKey, slot: u64)
        requires
            old(self).wf(),
        ensures
            order.status == OrderStatus::Init ==> *final(self) == *old(self),
            order.status != OrderStatus::Init ==> ({
                let mt = order.market_type;
                let idx = order.market_index;
                let c = order_cell(order, slot);
                swept_then_set(
                    old(self),
                    final(self),
                    slot,
                    mt,
                    idx,
                    c,
                    removed(swept_nodes(old(self), slot, mt, idx, c), signature_view(user_account, order.order_id)),
                    c,
                    removed(swept_nodes(old(self), slot, mt, idx, c), signature_view(user_account, order.order_id)),
                )
            }),
            order.status != OrderStatus::Init ==> !contains_sig(
                final(self).nodes(order.market_type, order.market_index, order_cell(order, slot)),
                signature_view(user_account, order.order_id),
            ),
            sorted_book(old(self)) ==> sorted_book(final(self)),
    {
        if order.status == OrderStatus::Init {
            return;
        }
        self.update_resting_limit_orders(slot);
        let ghost mid = *self;
        self.remove_classified(order, user_account, slot);
        proof {
            let c0 = order_cell(order, slot);
            lemma_swept_unique(old(self), &mid, slot, order.market_type, order.market_index, c0);
            lemma_removed_absent(
                swept_nodes(old(self), slot, order.market_type, order.market_index, c0),
                signature_view(user_account, order.order_id),
            );
            let mt = order.market_type;
            let idx = order.market_index;
            let c = order_cell(order, slot);
            let sig = signature_view(user_account, order.order_id);
            let sw = swept_nodes(old(self), slot, mt, idx, c);
            let s1 = removed(sw, sig);
            lemma_compose_one(old(self), &mid, self, slot, mt, idx, c, s1);
            if sorted_book(old(self)) {
                lemma_swept_nodes_sorted(old(self), slot, mt, idx, c);
                lemma_removed_sorted(cell_direction(c), sw, sig);
                lemma_swept_then_set_sorted(old(self), self, slot, mt, idx, c, s1, c, s1);
            }
        }
    }

    fn remove_classified(&mut self, order: Order, user_account: UserKey, slot: u64)
        requires
            old(self).wf(),
        ensures
            one_list_changed(
                old(self),
                final(self),
                order.market_type,
                order.market_index,
                order_cell(order, slot),
                removed(
                    old(self).nodes(order.market_type, order.market_index, order_cell(order, slot)),
                    signature_view(user_account, order.order_id),
                ),
            ),
    {
        let c = cell_for_order(&order, slot);
        self.change_list(order.market_type, order.market_index, c, ListChange::Remove, order, user_account);
    }

    /// Moves a triggered order out of the trigger list it waited in and into
    /// the list it now classifies into, after running the sweep for `slot`.
    pub fn trigger_order(&mut self, order: Order, user_account: UserKey, slot: u64)
        requires
            old(self).wf(),
        ensures
            order.status == OrderStatus::Init ==> *final(self) == *old(self),
            order.status != OrderStatus::Init && (!is_fired(order) || !old(self).has_market(
                order.market_type,
                order.market_index,
            ))
                ==> sweep_post(old(self), final(self), slot),
            order.status != OrderStatus::Init && is_fired(order) && old(self).has_market(
                order.market_type,
                order.market_index,
            ) ==> ({
                let mt = order.market_type;
                let idx = order.market_index;
                let tc = trigger_cell(order);
                let c = order_cell(order, slot);
                swept_then_set(
                    old(self),
                    final(self),
                    slot,
                    mt,
                    idx,
                    tc,
                    removed(swept_nodes(old(self), slot, mt, idx, tc), signature_view(user_account, order.order_id)),
                    c,
                    inserted(cell_direction(c), swept_nodes(old(self), slot, mt, idx, c), order, user_account),
                )
            }),
            order.status != OrderStatus::Init && is_fired(order) && old(self).has_market(
                order.market_type,
                order.market_index,
            ) ==> !contains_sig(
                final(self).nodes(order.market_type, order.market_index, trigger_cell(order)),
                signature_view(user_account, order.order_id),
            ) && contains_sig(
                final(self).nodes(order.market_type, order.market_index, order_cell(order, slot)),
                signature_view(user_account, order.order_id),
            ) && order_cell(order, slot) < 8,
            sorted_book(old(self)) ==> sorted_book(final(self)),
    {
        if order.status == OrderStatus::Init {
            return;
        }
        self.update_resting_limit_orders(slot);
        let fired = match order.trigger_condition {
            OrderTriggerCondition::Above | OrderTriggerCondition::Below => false,
            _ => true,
        };
        if !fired {
            return;
        }
        if !self.has_market_exec(order.market_type, order.market_index) {
            return;
        }
        let ghost mid = *self;
        let tc: usize = match order.trigger_condition {
            OrderTriggerCondition::TriggeredAbove => 8,
            _ => 9,
        };
        self.change_list(order.market_type, order.market_index, tc, ListChange::Remove, order, user_account);
        let ghost mid2 = *self;
        let c = cell_for_order(&order, slot);
        self.change_list(order.market_type, order.market_index, c, ListChange::Insert, order, user_account);
        proof {
            let mt = order.market_type;
            let idx = order.market_index;
            assert(c < 8);
            let sig = signature_view(user_account, order.order_id);
            let sw_t = swept_nodes(old(self), slot, mt, idx, tc as int);
            let sw_c = swept_nodes(old(self), slot, mt, idx, c as int);
            let s1 = removed(sw_t, sig);
            let s2 = inserted(cell_direction(c as int), sw_c, order, user_account);
            lemma_compose_two(old(self), &mid, &mid2, self, slot, mt, idx, tc as int, s1, c as int, s2);
            lemma_swept_unique(old(self), &mid, slot, mt, idx, tc as int);
            lemma_removed_absent(sw_t, sig);
            lemma_inserted_contains(cell_direction(c as int), sw_c, order, user_account, sig);
            if sorted_book(old(self)) {
                lemma_swept_nodes_sorted(old(self), slot, mt, idx, tc as int);
                lemma_swept_nodes_sorted(old(self), slot, mt, idx, c as int);
                lemma_removed_sorted(cell_direction(tc as int), sw_t, sig);
                lemma_inserted_sorted(cell_direction(c as int), sw_c, order, user_account);
                lemma_swept_then_set_sorted(old(self), self, slot, mt, idx, tc as int, s1, c as int, s2);
            }
        }
    }

    /// Records a new cumulative filled amount for an order, after running the
    /// sweep for `slot`: a fully filled order is deleted, an unchanged amount
    /// is ignored, and otherwise the stored node is replaced by a snapshot
    /// carrying the new amount. An event for an order still in `Init` is
    /// dropped.
    pub fn update_order(
        &mut self,
        order: Order,
        user_account: UserKey,
        slot: u64,
        cumulative_base_asset_amount_filled: u64,
    )
        requires
            old(self).wf(),
        ensures
            order.status == OrderStatus::Init ==> *final(self) == *old(self),
            order.status != OrderStatus::Init ==> ({
                let mt = order.market_type;
                let idx = order.market_index;
                let c = order_cell(order, slot);
                let sig = signature_view(user_account, order.order_id);
                if order.base_asset_amount == cumulative_base_asset_amount_filled {
                    swept_then_set(old(self), final(self), slot, mt, idx, c,
                        removed(swept_nodes(old(self), slot, mt, idx, c), sig), c,
                        removed(swept_nodes(old(self), slot, mt, idx, c), sig))
                } else if order.base_asset_amount_filled == cumulative_base_asset_amount_filled {
                    sweep_post(old(self), final(self), slot)
                } else {
                    let new_order = with_filled(order, cumulative_base_asset_amount_filled);
                    swept_then_set(old(self), final(self), slot, mt, idx, c,
                        updated(swept_nodes(old(self), slot, mt, idx, c), new_order, user_account), c,
                        updated(swept_nodes(old(self), slot, mt, idx, c), new_order, user_account))
                }
            }),
            order.status != OrderStatus::Init && order.base_asset_amount
                == cumulative_base_asset_amount_filled ==> !contains_sig(
                final(self).nodes(order.market_type, order.market_index, order_cell(order, slot)),
                signature_view(user_account, order.order_id),
            ),
            sorted_book(old(self)) && keeps_sort_value(
                swept_nodes(old(self), slot, order.market_type, order.market_index, order_cell(order, slot)),
                order,
                user_account,
            ) ==> sorted_book(final(self)),
    {
        if order.status == OrderStatus::Init {
            return;
        }
        self.update_resting_limit_orders(slot);
        let ghost mid = *self;
        if order.base_asset_amount == cumulative_base_asset_amount_filled {
            self.remove_classified(order, user_account, slot);
            proof {
                let mt = order.market_type;
                let idx = order.market_index;
                let c = order_cell(order, slot);
                let sig = signature_view(user_account, order.order_id);
                let sw = swept_nodes(old(self), slot, mt, idx, c);
                let s1 = removed(sw, sig);
                lemma_compose_one(old(self), &mid, self, slot, mt, idx, c, s1);
                lemma_swept_unique(old(self), &mid, slot, mt, idx, c);
                lemma_removed_absent(sw, sig);
                if sorted_book(old(self)) {
                    lemma_swept_nodes_sorted(old(self), slot, mt, idx, c);
                    lemma_removed_sorted(cell_direction(c), sw, sig);
                    lemma_swept_then_set_sorted(old(self), self, slot, mt, idx, c, s1, c, s1);
                }
            }
            return;
        }
        if order.base_asset_amount_filled == cumulative_base_asset_amount_filled {
            return;
        }
        let mut new_order = order;
        new_order.base_asset_amount_filled = cumulative_base_asset_amount_filled;
        let c = cell_for_order(&order, slot);
        self.change_list(order.market_type, order.market_index, c, ListChange::Update, new_order, user_account);
        proof {
            assert(new_order == with_filled(order, cumulative_base_asset_amount_filled));
            let mt = order.market_type;
            let idx = order.market_index;
            if !mid.has_market(mt, idx) {
                let here = mid.nodes(mt, idx, c as int);
                assert(updated(here, new_order, user_account) =~= here);
            }
            let sw = swept_nodes(old(self), slot, mt, idx, c as int);
            let s1 = updated(sw, new_order, user_account);
            lemma_compose_one(old(self), &mid, self, slot, mt, idx, c as int, s1);
            if sorted_book(old(self)) && keeps_sort_value(sw, order, user_account) {
                lemma_swept_nodes_sorted(old(self), slot, mt, idx, c as int);
                assert(sort_value_of(new_order) == sort_value_of(order));
                lemma_updated_sorted(cell_direction(c as int), sw, new_order, user_account);
                lemma_swept_then_set_sorted(old(self), self, slot, mt, idx, c as int, s1, c as int, s1);
            }
        }
    }

    /// Loads a snapshot of orders at `slot` into a book that is not
    /// initialized yet, then initializes it; an initialized book is left as it
    /// is and `false` returned.
    pub fn init_from_orders(&mut self, dlob_orders: DLOBOrders, slot: u64) -> (r: bool)
        requires
            old(self).wf(),
        ensures
            final(self).wf(),
            r == !old(self).is_initialized(),
            !r ==> *final(self) == *old(self),
            r ==> final(self).is_initialized(),
            r ==> exists|chain: Seq<DLOB>|
                {
                    &&& chain.len() == dlob_orders@.len() + 1
                    &&& chain[0] == *old(self)
                    &&& forall|k: int|
                        0 <= k < dlob_orders@.len() ==> insert_post(
                            &chain[k],
                            &chain[k + 1],
                            (#[trigger] dlob_orders@[k]).order,
                            dlob_orders@[k].user,
                            slot,
                        )
                    &&& same_contents(&chain[dlob_orders@.len() as int], final(self))
                },
            sorted_book(old(self)) ==> sorted_book(final(self)),
            r ==> forall|k: int|
                0 <= k < dlob_orders@.len() && (#[trigger] dlob_orders@[k]).order.status
                    != OrderStatus::Init ==> contains_sig(
                    final(self).nodes(
                        dlob_orders@[k].order.market_type,
                        dlob_orders@[k].order.market_index,
                        order_cell(dlob_orders@[k].order, slot),
                    ),
                    signature_view(dlob_orders@[k].user, dlob_orders@[k].order.order_id),
                ),
            r ==> forall|k: int|
                0 <= k < dlob_orders@.len() && (#[trigger] dlob_orders@[k]).order.status
                    == OrderStatus::Open ==> final(self).open_orders(
                    dlob_orders@[k].order.market_type,
                ).contains(signature_view(dlob_orders@[k].user, dlob_orders@[k].order.order_id)),
    {
        if self.initialized {
            return false;
        }
        let ghost start = *self;
        let ghost mut chain: Seq<DLOB> = seq![*self];
        let mut i: usize = 0;
        while i < dlob_orders.len()
            invariant
                self.wf(),
                start == *old(self),
                chain.len() == i + 1,
                chain[0] == start,
                chain[i as int] == *self,
                forall|k: int|
                    0 <= k < i ==> insert_post(
                        &chain[k],
                        &chain[k + 1],
                        (#[trigger] dlob_orders@[k]).order,
                        dlob_orders@[k].user,
                        slot,
                    ),
                sorted_book(&start) ==> sorted_book(self),
                !self.is_initialized(),
                0 <= i <= dlob_orders@.len(),
                forall|k: int|
                    0 <= k < i && (#[trigger] dlob_orders@[k]).order.status != OrderStatus::Init
                        ==> contains_sig(
                        self.nodes(
                            dlob_orders@[k].order.market_type,
                            dlob_orders@[k].order.market_index,
                            order_cell(dlob_orders@[k].order, slot),
                        ),
                        signature_view(dlob_orders@[k].user, dlob_orders@[k].order.order_id),
                    ),
                forall|k: int|
                    0 <= k < i && (#[trigger] dlob_orders@[k]).order.status == OrderStatus::Open
                        ==> self.open_orders(dlob_orders@[k].order.market_type).contains(
                        signature_view(dlob_orders@[k].user, dlob_orders@[k].order.order_id),
                    ),
            decreases dlob_orders@.len() - i,
        {
            let entry = dlob_orders[i];
            let ghost before = *self;
            self.insert_order(entry.order, entry.user, slot);
            proof {
                chain = chain.push(*self);
                let o = entry.order;
                let c = order_cell(o, slot);
                assert forall|k: int|
                    0 <= k < i + 1 && (#[trigger] dlob_orders@[k]).order.status != OrderStatus::Init
                        implies contains_sig(
                        self.nodes(
                            dlob_orders@[k].order.market_type,
                            dlob_orders@[k].order.market_index,
                            order_cell(dlob_orders@[k].order, slot),
                        ),
                        signature_view(dlob_orders@[k].user, dlob_orders@[k].order.order_id),
                    ) by {
                    let e = dlob_orders@[k];
                    let sig = signature_view(e.user, e.order.order_id);
                    let (mt2, idx2, d) = (e.order.market_type, e.order.market_index, order_cell(e.order, slot));
                    let here = before.nodes(o.market_type, o.market_index, c);
                    lemma_inserted_contains(cell_direction(c), here, o, entry.user, sig);
                    if o.status != OrderStatus::Init {
                        if mt2 != o.market_type || idx2 != o.market_index {
                            assert(self.market(mt2, idx2) == before.market(mt2, idx2));
                        } else if d != c {
                            assert(self.nodes(mt2, idx2, d) == before.nodes(mt2, idx2, d));
                        }
                    }
                }
                assert forall|k: int|
                    0 <= k < i + 1 && (#[trigger] dlob_orders@[k]).order.status == OrderStatus::Open
                        implies self.open_orders(dlob_orders@[k].order.market_type).contains(
                        signature_view(dlob_orders@[k].user, dlob_orders@[k].order.order_id),
                    ) by {
                    let e = dlob_orders@[k];
                    if o.status != OrderStatus::Init && e.order.market_type != o.market_type {
                        assert(self.open_orders(e.order.market_type) == before.open_orders(e.order.market_type));
                    }
                }
            }
            i = i + 1;
        }
        let ghost loaded = *self;
        self.initialize();
        proof {
            assert(same_contents(&chain[dlob_orders@.len() as int], self));
            if sorted_book(&start) {
                assert forall|mt: MarketType, idx: u16, c: int| 0 <= c < CELL_COUNT implies sorted(
                    cell_direction(c),
                    #[trigger] self.nodes(mt, idx, c),
                ) by {
                    assert(self.market(mt, idx) == loaded.market(mt, idx));
                    assert(sorted(cell_direction(c), loaded.nodes(mt, idx, c)));
                }
            }
        }
        true
    }

    /// Applies an order record from the event stream.
    pub fn handle_order_record(&mut self, record: OrderRecord, slot: u64)
        requires
            old(self).wf(),
        ensures
            final(self).wf(),
            insert_post(old(self), final(self), record.order, record.user, slot),
            sorted_book(old(self)) ==> sorted_book(final(self)),
    {
        self.insert_order(record.order, record.user, slot)
    }

    /// Copies of every list: the perp markets' lists before the spot
    /// markets', markets by ascending index, and in each market resting,
    /// floating, taking and market lists (ask, then bid), then the trigger
    /// lists (above, then below).
    pub fn get_node_lists(&self) -> (r: Vec<NodeList>)
        requires
            self.wf(),
        ensures
            r@.len() == all_lists(self).len(),
            forall|k: int| 0 <= k < r@.len() ==> (#[trigger] r@[k])@ == all_lists(self)[k],
            forall|k: int| 0 <= k < r@.len() ==> (#[trigger] r@[k]).wf(),
    {
        let mut r: Vec<NodeList> = Vec::new();
        collect_lists(&self.perp_markets, &mut r);
        let ghost r1 = r@;
        collect_lists(&self.spot_markets, &mut r);
        proof {
            let a = market_lists(self.markets_of(MarketType::Perp));
            let b = market_lists(self.markets_of(MarketType::Spot));
            assert forall|k: int| 0 <= k < r@.len() implies (#[trigger] r@[k])@ == (a + b)[k] by {
                if k < a.len() {
                    assert(r@[k] == r1[k]);
                    assert(r1[0 + k]@ == a[k]);
                    assert((a + b)[k] == a[k]);
                } else {
                    assert(r@[r1.len() + (k - a.len())]@ == b[k - a.len()]);
                    assert((a + b)[k] == b[k - a.len()]);
                }
            }
            assert(all_lists(self) =~= market_lists(self.markets_of(MarketType::Perp)) + market_lists(
                self.markets_of(MarketType::Spot),
            ));
        }
        r
    }

    /// The order of the first node, in the order of `get_node_lists`, with
    /// that order id and owner.
    pub fn get_order(&self, order_id: u32, user_account: UserKey) -> (r: Option<Order>)
        requires
            self.wf(),
        ensures
            r == first_match(all_lists(self), signature_view(user_account, order_id)),
    {
        let lists = self.get_node_lists();
        let ghost v = all_lists(self);
        let ghost sig = signature_view(user_account, order_id);
        let mut i: usize = 0;
        proof {
            assert(v.skip(0) =~= v);
        }
        while i < lists.len()
            invariant
                0 <= i <= lists@.len(),
                lists@.len() == v.len(),
                forall|k: int| 0 <= k < lists@.len() ==> (#[trigger] lists@[k])@ == v[k],
                forall|k: int| 0 <= k < lists@.len() ==> (#[trigger] lists@[k]).wf(),
                sig == signature_view(user_account, order_id),
                v == all_lists(self),
                first_match(v, sig) == first_match(v.skip(i as int), sig),
            decreases lists@.len() - i,
        {
            let l = &lists[i];
            proof {
                assert(v.skip(i as int)[0] == v[i as int]);
                assert(v.skip(i as int).drop_first() =~= v.skip(i as int + 1));
            }
            match l.position(order_id, &user_account) {
                Some(p) => {
                    proof {
                        lemma_sig_index(l@, sig, p as int);
                        assert(l@ == v[i as int]);
                        assert(v.skip(i as int)[0] == v[i as int]);
                        assert(contains_sig(v.skip(i as int)[0], sig));
                        assert(first_match(v.skip(i as int), sig) == Some(l@[p as int].order));
                    }
                    return Some(l.order_at(p));
                },
                None => {
                    proof {
                        assert(!contains_sig(v.skip(i as int)[0], sig));
                    }
                },
            }
            i = i + 1;
        }
        proof {
            assert(v.skip(i as int).len() == 0);
        }
        None
    }
}

impl Default for DLOB {
    fn default() -> (r: DLOB)
        ensures
            r.wf(),
            r.is_empty_book(),
            sorted_book(&r),
            !r.is_initialized(),
    {
        DLOB::new()
    }
}

/// `b` is `a` after the streaming insert of `order` of `user` at `slot`: an
/// order in `Init` changes nothing; any other creates its market's lists if
/// needed, goes into the list its classification selects, and is recorded
/// among the open orders when it is open.
pub open spec fn insert_post(a: &DLOB, b: &DLOB, order: Order, user: UserKey, slot: u64) -> bool {
    &&& order.status == OrderStatus::Init ==> *b == *a
    &&& order.status != OrderStatus::Init ==> ({
        let mt = order.market_type;
        let idx = order.market_index;
        let c = order_cell(order, slot);
        &&& b.has_market(mt, idx)
        &&& forall|mt2: MarketType, idx2: u16|
            (mt2 != mt || idx2 != idx) ==> #[trigger] b.market(mt2, idx2) == a.market(mt2, idx2)
        &&& forall|d: int|
            0 <= d < CELL_COUNT && d != c ==> #[trigger] b.nodes(mt, idx, d) == a.nodes(mt, idx, d)
        &&& b.nodes(mt, idx, c) == inserted(cell_direction(c), a.nodes(mt, idx, c), order, user)
        &&& b.open_orders(mt) == (if order.status == OrderStatus::Open {
            a.open_orders(mt).insert(signature_view(user, order.order_id))
        } else {
            a.open_orders(mt)
        })
        &&& forall|mt2: MarketType| mt2 != mt ==> #[trigger] b.open_orders(mt2) == a.open_orders(mt2)
    })
    &&& b.watermark() == a.watermark()
    &&& b.is_initialized() == a.is_initialized()
}

/// `a` and `b` hold the same lists, open orders and watermark.
pub open spec fn same_contents(a: &DLOB, b: &DLOB) -> bool {
    &&& forall|mt: MarketType, idx: u16| #[trigger] b.market(mt, idx) == a.market(mt, idx)
    &&& forall|mt: MarketType| #[trigger] b.open_orders(mt) == a.open_orders(mt)
    &&& b.watermark() == a.watermark()
}

/// List `d` of market `idx` of type `mt` after the sweep of `a` at `slot`.
pub open spec fn swept_nodes(a: &DLOB, slot: u64, mt: MarketType, idx: u16, d: int) -> Seq<OrderNode> {
    if slot <= a.watermark() {
        a.nodes(mt, idx, d)
    } else {
        match a.market(mt, idx) {
            Some(m) => swept_cell(m, slot, d),
            None => Seq::empty(),
        }
    }
}

/// `b` is `a` after the sweep at `slot`.
pub open spec fn sweep_post(a: &DLOB, b: &DLOB, slot: u64) -> bool {
    &&& b.wf()
    &&& forall|mt: MarketType, idx: u16| #[trigger] b.has_market(mt, idx) == a.has_market(mt, idx)
    &&& forall|mt: MarketType, idx: u16, d: int|
        0 <= d < CELL_COUNT ==> #[trigger] b.nodes(mt, idx, d) == swept_nodes(a, slot, mt, idx, d)
    &&& forall|mt: MarketType| #[trigger] b.open_orders(mt) == a.open_orders(mt)
    &&& b.watermark() == (if slot <= a.watermark() {
        a.watermark()
    } else {
        slot
    })
    &&& b.is_initialized() == a.is_initialized()
}

/// Once the sweep has run at a slot, running it again at that slot changes nothing.
pub proof fn lemma_sweep_once_per_slot(a: &DLOB, b: &DLOB, c: &DLOB, slot: u64)
    requires
        sweep_post(a, b, slot),
        sweep_post(b, c, slot),
    ensures
        forall|mt: MarketType, idx: u16, d: int|
            0 <= d < CELL_COUNT ==> #[trigger] c.nodes(mt, idx, d) == b.nodes(mt, idx, d),
        forall|mt: MarketType, idx: u16| #[trigger] c.has_market(mt, idx) == b.has_market(mt, idx),
        forall|mt: MarketType| #[trigger] c.open_orders(mt) == b.open_orders(mt),
        c.watermark() == b.watermark(),
        c.is_initialized() == b.is_initialized(),
{
    assert forall|mt: MarketType, idx: u16, d: int| 0 <= d < CELL_COUNT implies #[trigger] c.nodes(mt, idx, d)
        == b.nodes(mt, idx, d) by {
        assert(c.nodes(mt, idx, d) == swept_nodes(b, slot, mt, idx, d));
    }
}

/// `o` with its filled amount set to `filled`.
pub open spec fn with_filled(o: Order, filled: u64) -> Order {
    Order {
        order_id: o.order_id,
        market_type: o.market_type,
        market_index: o.market_index,
        order_type: o.order_type,
        status: o.status,
        direction: o.direction,
        price: o.price,
        trigger_price: o.trigger_price,
        trigger_condition: o.trigger_condition,
        base_asset_amount: o.base_asset_amount,
        base_asset_amount_filled: filled,
        oracle_price_offset: o.oracle_price_offset,
        slot: o.slot,
        auction_duration: o.auction_duration,
        post_only: o.post_only,
    }
}

/// The order's trigger condition is no longer waiting for a price.
pub open spec fn is_fired(o: Order) -> bool {
    o.trigger_condition != OrderTriggerCondition::Above && o.trigger_condition
        != OrderTriggerCondition::Below
}

/// The trigger list a fired order waited in: above for one fired above,
/// below otherwise.
pub open spec fn trigger_cell(o: Order) -> int {
    if o.trigger_condition == OrderTriggerCondition::TriggeredAbove {
        8
    } else {
        9
    }
}

/// `b` is `a` with list `c` of market `idx` of type `mt` set to `s`, and
/// nothing else changed.
pub open spec fn one_list_changed(
    a: &DLOB,
    b: &DLOB,
    mt: MarketType,
    idx: u16,
    c: int,
    s: Seq<OrderNode>,
) -> bool {
    &&& b.wf()
    &&& forall|mt2: MarketType, idx2: u16| #[trigger] b.has_market(mt2, idx2) == a.has_market(mt2, idx2)
    &&& forall|mt2: MarketType, idx2: u16|
        (mt2 != mt || idx2 != idx) ==> #[trigger] b.market(mt2, idx2) == a.market(mt2, idx2)
    &&& forall|d: int| 0 <= d < CELL_COUNT && d != c ==> #[trigger] b.nodes(mt, idx, d) == a.nodes(mt, idx, d)
    &&& b.nodes(mt, idx, c) == s
    &&& forall|mt2: MarketType| #[trigger] b.open_orders(mt2) == a.open_orders(mt2)
    &&& b.watermark() == a.watermark()
    &&& b.is_initialized() == a.is_initialized()
}

/// `b` is `a` after the sweep at `slot`, with lists `c1` and `c2` of market
/// `idx` of type `mt` then set to `s1` and `s2`.
pub open spec fn swept_then_set(
    a: &DLOB,
    b: &DLOB,
    slot: u64,
    mt: MarketType,
    idx: u16,
    c1: int,
    s1: Seq<OrderNode>,
    c2: int,
    s2: Seq<OrderNode>,
) -> bool {
    &&& b.wf()
    &&& forall|mt2: MarketType, idx2: u16| #[trigger] b.has_market(mt2, idx2) == a.has_market(mt2, idx2)
    &&& forall|mt2: MarketType, idx2: u16, d: int|
        0 <= d < CELL_COUNT && !(mt2 == mt && idx2 == idx && (d == c1 || d == c2))
            ==> #[trigger] b.nodes(mt2, idx2, d) == swept_nodes(a, slot, mt2, idx2, d)
    &&& b.nodes(mt, idx, c1) == s1
    &&& b.nodes(mt, idx, c2) == s2
    &&& forall|mt2: MarketType| #[trigger] b.open_orders(mt2) == a.open_orders(mt2)
    &&& b.watermark() == (if slot <= a.watermark() {
        a.watermark()
    } else {
        slot
    })
    &&& b.is_initialized() == a.is_initialized()
}

proof fn lemma_compose_one(
    a: &DLOB,
    m: &DLOB,
    b: &DLOB,
    slot: u64,
    mt: MarketType,
    idx: u16,
    c: int,
    s: Seq<OrderNode>,
)
    requires
        sweep_post(a, m, slot),
        one_list_changed(m, b, mt, idx, c, s),
        0 <= c < CELL_COUNT,
    ensures
        swept_then_set(a, b, slot, mt, idx, c, s, c, s),
{
    assert forall|mt2: MarketType, idx2: u16, d: int|
        0 <= d < CELL_COUNT && !(mt2 == mt && idx2 == idx && (d == c || d == c))
            implies #[trigger] b.nodes(mt2, idx2, d) == swept_nodes(a, slot, mt2, idx2, d) by {
        assert(m.nodes(mt2, idx2, d) == swept_nodes(a, slot, mt2, idx2, d));
        if mt2 != mt || idx2 != idx {
            assert(b.market(mt2, idx2) == m.market(mt2, idx2));
        }
    }
}

proof fn lemma_compose_two(
    a: &DLOB,
    m: &DLOB,
    m2: &DLOB,
    b: &DLOB,
    slot: u64,
    mt: MarketType,
    idx: u16,
    c1: int,
    s1: Seq<OrderNode>,
    c2: int,
    s2: Seq<OrderNode>,
)
    requires
        sweep_post(a, m, slot),
        one_list_changed(m, m2, mt, idx, c1, s1),
        one_list_changed(m2, b, mt, idx, c2, s2),
        0 <= c1 < CELL_COUNT,
        0 <= c2 < CELL_COUNT,
        c1 != c2,
    ensures
        swept_then_set(a, b, slot, mt, idx, c1, s1, c2, s2),
{
    assert forall|mt2: MarketType, idx2: u16, d: int|
        0 <= d < CELL_COUNT && !(mt2 == mt && idx2 == idx && (d == c1 || d == c2))
            implies #[trigger] b.nodes(mt2, idx2, d) == swept_nodes(a, slot, mt2, idx2, d) by {
        assert(m.nodes(mt2, idx2, d) == swept_nodes(a, slot, mt2, idx2, d));
        if mt2 != mt || idx2 != idx {
            assert(b.market(mt2, idx2) == m2.market(mt2, idx2));
            assert(m2.market(mt2, idx2) == m.market(mt2, idx2));
        } else {
            assert(b.nodes(mt, idx, d) == m2.nodes(mt, idx, d));
            assert(m2.nodes(mt, idx, d) == m.nodes(mt, idx, d));
        }
    }
    assert(b.nodes(mt, idx, c1) == m2.nodes(mt, idx, c1));
}

/// The lists of one market, in the order `get_node_lists` gives them.
pub open spec fn cells_of(m: MarketNodeLists) -> Seq<Seq<OrderNode>> {
    Seq::new(CELL_COUNT as nat, |c: int| m.cell(c)@)
}

pub open spec fn market_lists(ms: Seq<Option<MarketNodeLists>>) -> Seq<Seq<OrderNode>>
    decreases ms.len(),
{
    if ms.len() == 0 {
        Seq::empty()
    } else {
        market_lists(ms.drop_last()) + match ms.last() {
            Some(m) => cells_of(m),
            None => Seq::empty(),
        }
    }
}

/// Every list of the book: perp markets first, then spot.
pub open spec fn all_lists(d: &DLOB) -> Seq<Seq<OrderNode>> {
    market_lists(d.markets_of(MarketType::Perp)) + market_lists(d.markets_of(MarketType::Spot))
}

/// The order of the node with signature `sig` in the first list holding one.
pub open spec fn first_match(v: Seq<Seq<OrderNode>>, sig: (Seq<u8>, u32)) -> Option<Order>
    decreases v.len(),
{
    if v.len() == 0 {
        None
    } else if contains_sig(v[0], sig) {
        Some(v[0][sig_index(v[0], sig)].order)
    } else {
        first_match(v.drop_first(), sig)
    }
}

fn collect_lists(ms: &Vec<Option<MarketNodeLists>>, r: &mut Vec<NodeList>)
    requires
        markets_wf(ms@),
        forall|k: int| 0 <= k < old(r)@.len() ==> (#[trigger] old(r)@[k]).wf(),
    ensures
        forall|k: int| 0 <= k < final(r)@.len() ==> (#[trigger] final(r)@[k]).wf(),
        final(r)@.len() == old(r)@.len() + market_lists(ms@).len(),
        forall|k: int| 0 <= k < old(r)@.len() ==> #[trigger] final(r)@[k] == old(r)@[k],
        forall|k: int|
            0 <= k < market_lists(ms@).len() ==> (#[trigger] final(r)@[old(r)@.len() + k])@
                == market_lists(ms@)[k],
{
    let ghost r0 = r@;
    let mut i: usize = 0;
    while i < ms.len()
        invariant
            0 <= i <= ms@.len(),
            markets_wf(ms@),
            forall|k: int| 0 <= k < r@.len() ==> (#[trigger] r@[k]).wf(),
            r@.len() == r0.len() + market_lists(ms@.subrange(0, i as int)).len(),
            forall|k: int| 0 <= k < r0.len() ==> #[trigger] r@[k] == r0[k],
            forall|k: int|
                0 <= k < market_lists(ms@.subrange(0, i as int)).len() ==> (#[trigger] r@[r0.len()
                    + k])@ == market_lists(ms@.subrange(0, i as int))[k],
        decreases ms@.len() - i,
    {
        let ghost before = r@;
        let ghost pre = ms@.subrange(0, i as int);
        proof {
            assert(ms@.subrange(0, i as int + 1).drop_last() =~= pre);
        }
        match &ms[i] {
            Some(m) => {
                proof {
                    assert(ms@[i as int] matches Some(mm) && mm.wf());
                }
                let mut c: usize = 0;
                while c < CELL_COUNT
                    invariant
                        0 <= c <= CELL_COUNT,
                        r@.len() == before.len() + c,
                        m.wf(),
                        forall|k: int| 0 <= k < r@.len() ==> (#[trigger] r@[k]).wf(),
                        forall|k: int| 0 <= k < before.len() ==> #[trigger] r@[k] == before[k],
                        forall|k: int| 0 <= k < c ==> (#[trigger] r@[before.len() + k])@ == m.cell(k)@,
                    decreases CELL_COUNT - c,
                {
                    r.push(m.cell_ref(c).duplicate());
                    c = c + 1;
                }
                proof {
                    let q = ms@.subrange(0, i as int + 1);
                    assert(q.last() == Some(*m));
                    assert(market_lists(q) == market_lists(pre) + cells_of(*m));
                    let pl = market_lists(pre).len();
                    assert forall|k: int| 0 <= k < market_lists(q).len() implies (#[trigger] r@[r0.len()
                        + k])@ == market_lists(q)[k] by {
                        if k < pl {
                            assert(r@[r0.len() + k] == before[r0.len() + k]);
                        } else {
                            assert(r@[before.len() + (k - pl)]@ == m.cell(k - pl)@);
                        }
                    }
                }
            },
            None => {
                proof {
                    let q = ms@.subrange(0, i as int + 1);
                    assert(market_lists(q) =~= market_lists(pre) + Seq::<Seq<OrderNode>>::empty());
                }
            },
        }
        i = i + 1;
    }
    proof {
        assert(ms@.subrange(0, ms@.len() as int) =~= ms@);
    }
}

proof fn lemma_still_taking_sorted(dir: SortDirection, s: Seq<OrderNode>, slot: u64)
    requires
        sorted(dir, s),
    ensures
        sorted(dir, still_taking(s, slot)),
        forall|i: int|
            0 <= i < still_taking(s, slot).len() ==> exists|j: int|
                0 <= j < s.len() && #[trigger] still_taking(s, slot)[i] == s[j],
    decreases s.len(),
{
    if s.len() > 0 {
        let q = s.drop_last();
        assert forall|a: int, b: int| 0 <= a < b < q.len() implies !precedes(
            dir,
            #[trigger] q[b].sort_value,
            #[trigger] q[a].sort_value,
        ) by {
            assert(q[a] == s[a] && q[b] == s[b]);
        }
        lemma_still_taking_sorted(dir, q, slot);
        let p = still_taking(q, slot);
        let st = still_taking(s, slot);
        if !resting_limit_spec(s.last().order, slot) {
            assert forall|i: int| 0 <= i < st.len() implies exists|j: int|
                0 <= j < s.len() && #[trigger] st[i] == s[j] by {
                if i < p.len() {
                    let j = choose|j: int| 0 <= j < q.len() && p[i] == q[j];
                    assert(st[i] == s[j]);
                } else {
                    assert(st[i] == s[s.len() - 1]);
                }
            }
            assert forall|a: int, b: int| 0 <= a < b < st.len() implies !precedes(
                dir,
                #[trigger] st[b].sort_value,
                #[trigger] st[a].sort_value,
            ) by {
                if b < p.len() {
                    assert(st[a] == p[a] && st[b] == p[b]);
                } else {
                    let j = choose|j: int| 0 <= j < q.len() && p[a] == q[j];
                    assert(st[a] == s[j]);
                    assert(st[b] == s[s.len() - 1]);
                }
            }
        } else {
            assert forall|i: int| 0 <= i < st.len() implies exists|j: int|
                0 <= j < s.len() && #[trigger] st[i] == s[j] by {
                let j = choose|j: int| 0 <= j < q.len() && p[i] == q[j];
                assert(st[i] == s[j]);
            }
        }
    }
}

proof fn lemma_promoted_sorted(
    dir: SortDirection,
    resting: Seq<OrderNode>,
    takers: Seq<OrderNode>,
    slot: u64,
)
    requires
        sorted(dir, resting),
    ensures
        sorted(dir, promoted(dir, resting, takers, slot)),
    decreases takers.len(),
{
    if takers.len() > 0 {
        lemma_promoted_sorted(dir, resting, takers.drop_last(), slot);
        let n = takers.last();
        lemma_inserted_sorted(
            dir,
            promoted(dir, resting, takers.drop_last(), slot),
            n.order,
            n.user_account,
        );
    }
}

/// Every list of the book is in sort order.
pub open spec fn sorted_book(d: &DLOB) -> bool {
    forall|mt: MarketType, idx: u16, c: int|
        0 <= c < CELL_COUNT ==> sorted(cell_direction(c), #[trigger] d.nodes(mt, idx, c))
}

proof fn lemma_swept_nodes_sorted(a: &DLOB, slot: u64, mt: MarketType, idx: u16, d: int)
    requires
        sorted_book(a),
        0 <= d < CELL_COUNT,
    ensures
        sorted(cell_direction(d), swept_nodes(a, slot, mt, idx, d)),
{
    assert(sorted(cell_direction(d), a.nodes(mt, idx, d)));
    if slot > a.watermark() {
        if a.market(mt, idx) is Some {
            let m = a.market(mt, idx)->Some_0;
            if d == 0 || d == 1 {
                lemma_promoted_sorted(cell_direction(d), m.cell(d)@, m.cell(d + 4)@, slot);
            } else if d == 4 || d == 5 {
                lemma_still_taking_sorted(cell_direction(d), m.cell(d)@, slot);
            }
        }
    }
}

proof fn lemma_swept_then_set_sorted(
    a: &DLOB,
    b: &DLOB,
    slot: u64,
    mt: MarketType,
    idx: u16,
    c1: int,
    s1: Seq<OrderNode>,
    c2: int,
    s2: Seq<OrderNode>,
)
    requires
        sorted_book(a),
        swept_then_set(a, b, slot, mt, idx, c1, s1, c2, s2),
        0 <= c1 < CELL_COUNT,
        0 <= c2 < CELL_COUNT,
        sorted(cell_direction(c1), s1),
        sorted(cell_direction(c2), s2),
    ensures
        sorted_book(b),
{
    assert forall|mt2: MarketType, idx2: u16, d: int| 0 <= d < CELL_COUNT implies sorted(
        cell_direction(d),
        #[trigger] b.nodes(mt2, idx2, d),
    ) by {
        if !(mt2 == mt && idx2 == idx && (d == c1 || d == c2)) {
            lemma_swept_nodes_sorted(a, slot, mt2, idx2, d);
        }
    }
}

proof fn lemma_sweep_post_sorted(a: &DLOB, b: &DLOB, slot: u64)
    requires
        sorted_book(a),
        sweep_post(a, b, slot),
    ensures
        sorted_book(b),
{
    assert forall|mt2: MarketType, idx2: u16, d: int| 0 <= d < CELL_COUNT implies sorted(
        cell_direction(d),
        #[trigger] b.nodes(mt2, idx2, d),
    ) by {
        lemma_swept_nodes_sorted(a, slot, mt2, idx2, d);
    }
}

proof fn lemma_wf_no_init(a: &DLOB, mt: MarketType, idx: u16, c: int)
    requires
        a.wf(),
        0 <= c < CELL_COUNT,
    ensures
        no_init(a.nodes(mt, idx, c)),
{
    if a.market(mt, idx) is Some {
        let ms = a.markets_of(mt);
        assert(ms[idx as int] is Some);
        assert(a.market(mt, idx)->Some_0.cell(c).wf());
    }
}

proof fn lemma_promoted_contains(
    dir: SortDirection,
    resting: Seq<OrderNode>,
    takers: Seq<OrderNode>,
    slot: u64,
)
    requires
        no_init(takers),
    ensures
        forall|sig: (Seq<u8>, u32)|
            contains_sig(resting, sig) ==> #[trigger] contains_sig(
                promoted(dir, resting, takers, slot),
                sig,
            ),
        forall|i: int|
            0 <= i < takers.len() && resting_limit_spec(takers[i].order, slot) ==> contains_sig(
                promoted(dir, resting, takers, slot),
                node_sig(#[trigger] takers[i]),
            ),
    decreases takers.len(),
{
    if takers.len() > 0 {
        let q = takers.drop_last();
        assert forall|i: int| 0 <= i < q.len() implies (#[trigger] q[i]).order.status
            != OrderStatus::Init by {
            assert(q[i] == takers[i]);
        }
        lemma_promoted_contains(dir, resting, q, slot);
        let p = promoted(dir, resting, q, slot);
        let n = takers.last();
        assert forall|sig: (Seq<u8>, u32)| contains_sig(resting, sig) implies #[trigger] contains_sig(
            promoted(dir, resting, takers, slot),
            sig,
        ) by {
            assert(contains_sig(p, sig));
            lemma_inserted_contains(dir, p, n.order, n.user_account, sig);
        }
        assert forall|i: int|
            0 <= i < takers.len() && resting_limit_spec(takers[i].order, slot) implies contains_sig(
            promoted(dir, resting, takers, slot),
            node_sig(#[trigger] takers[i]),
        ) by {
            if i < q.len() {
                assert(q[i] == takers[i]);
                assert(contains_sig(p, node_sig(q[i])));
            }
            lemma_inserted_contains(dir, p, n.order, n.user_account, node_sig(takers[i]));
        }
    }
}

proof fn lemma_still_taking_ineligible(s: Seq<OrderNode>, slot: u64)
    ensures
        forall|j: int|
            0 <= j < still_taking(s, slot).len() ==> !resting_limit_spec(
                (#[trigger] still_taking(s, slot)[j]).order,
                slot,
            ),
    decreases s.len(),
{
    if s.len() > 0 {
        lemma_still_taking_ineligible(s.drop_last(), slot);
        let p = still_taking(s.drop_last(), slot);
        let st = still_taking(s, slot);
        assert forall|j: int| 0 <= j < st.len() implies !resting_limit_spec(
            (#[trigger] st[j]).order,
            slot,
        ) by {
            if j < p.len() {
                assert(st[j] == p[j]);
            }
        }
    }
}

/// On side `side` (0 ask, 1 bid) of market `idx` of type `mt`: each taking
/// order of `a` that rests at `slot` is in `b`'s resting list of that side,
/// every order resting in `a` still is, and no order that rests is left taking.
pub open spec fn side_kept(a: &DLOB, b: &DLOB, slot: u64, mt: MarketType, idx: u16, side: int) -> bool {
    &&& forall|i: int|
        0 <= i < a.nodes(mt, idx, side + 4).len() && resting_limit_spec(
            a.nodes(mt, idx, side + 4)[i].order,
            slot,
        ) ==> contains_sig(b.nodes(mt, idx, side), node_sig(#[trigger] a.nodes(mt, idx, side + 4)[i]))
    &&& forall|sig: (Seq<u8>, u32)|
        #[trigger] contains_sig(a.nodes(mt, idx, side), sig) ==> contains_sig(
            b.nodes(mt, idx, side),
            sig,
        )
    &&& forall|j: int|
        0 <= j < b.nodes(mt, idx, side + 4).len() ==> !resting_limit_spec(
            (#[trigger] b.nodes(mt, idx, side + 4)[j]).order,
            slot,
        )
}

/// After the sweep of `a` at a new slot, both sides of every market keep
/// their orders as `side_kept` says.
pub open spec fn sweep_keeps_orders(a: &DLOB, b: &DLOB, slot: u64) -> bool {
    slot > a.watermark() ==> forall|mt: MarketType, idx: u16, side: int|
        0 <= side < 2 ==> #[trigger] side_kept(a, b, slot, mt, idx, side)
}

/// The sweep loses no order: it moves each eligible taking order into the
/// resting list of its side, and keeps every resting order.
pub proof fn lemma_sweep_keeps_orders(a: &DLOB, b: &DLOB, slot: u64)
    requires
        a.wf(),
        sweep_post(a, b, slot),
    ensures
        sweep_keeps_orders(a, b, slot),
{
    if slot > a.watermark() {
        assert forall|mt: MarketType, idx: u16, side: int| 0 <= side < 2 implies #[trigger] side_kept(
            a,
            b,
            slot,
            mt,
            idx,
            side,
        ) by {
            lemma_wf_no_init(a, mt, idx, side + 4);
            assert(b.nodes(mt, idx, side) == swept_nodes(a, slot, mt, idx, side));
            assert(b.nodes(mt, idx, side + 4) == swept_nodes(a, slot, mt, idx, side + 4));
            lemma_promoted_contains(
                cell_direction(side),
                a.nodes(mt, idx, side),
                a.nodes(mt, idx, side + 4),
                slot,
            );
            lemma_still_taking_ineligible(a.nodes(mt, idx, side + 4), slot);
        }
    }
}

proof fn lemma_swept_unique(a: &DLOB, m: &DLOB, slot: u64, mt: MarketType, idx: u16, c: int)
    requires
        sweep_post(a, m, slot),
        0 <= c < CELL_COUNT,
    ensures
        crate::node_list::unique_signatures(swept_nodes(a, slot, mt, idx, c)),
{
    assert(m.nodes(mt, idx, c) == swept_nodes(a, slot, mt, idx, c));
    if m.market(mt, idx) is Some {
        let ms = m.markets_of(mt);
        assert(ms[idx as int] is Some);
        assert(m.market(mt, idx)->Some_0.cell(c).wf());
    }
}

} // verus!
