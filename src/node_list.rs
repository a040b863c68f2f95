//! A sorted list of order nodes for one (market, classification, side) cell.

use vstd::prelude::*;

use crate::dlob_node::{
    node_of, sort_value_of, tag_node, tag_order_node, DLOBNodeOrders, DLOBNodeType, OrderNode,
};
use crate::order::{signature_view, Order, OrderStatus, UserKey};

verus! {

pub uninterp spec fn base58_text(key: Seq<u8>) -> Seq<char>;

/// Relies on the `Display` of anchor_lang's `Pubkey`: the key's base58 text,
/// which depends on the key alone and, in bs58's Bitcoin alphabet, holds no `'-'`.
#[verifier::external_body]
fn key_text(user_account: &UserKey) -> (r: String)
    ensures
        r@ == base58_text(user_account@),
        forall|i: int| 0 <= i < r@.len() ==> r@[i] != '-',
{
    anchor_lang::prelude::Pubkey::new_from_array(user_account.bytes).to_string()
}

/// Relies on `String::push`: appends one character.
#[verifier::external_body]
fn push_char(s: &mut String, c: char)
    ensures
        final(s)@ == old(s)@.push(c),
{
    s.push(c)
}

pub open spec fn digit_char(d: int) -> char {
    if d == 0 {
        '0'
    } else if d == 1 {
        '1'
    } else if d == 2 {
        '2'
    } else if d == 3 {
        '3'
    } else if d == 4 {
        '4'
    } else if d == 5 {
        '5'
    } else if d == 6 {
        '6'
    } else if d == 7 {
        '7'
    } else if d == 8 {
        '8'
    } else {
        '9'
    }
}

/// The decimal digits of `n`, most significant first, without leading zeros.
pub open spec fn decimal_text(n: nat) -> Seq<char>
    decreases n,
{
    if n < 10 {
        seq![digit_char(n as int)]
    } else {
        decimal_text(n / 10).push(digit_char((n % 10) as int))
    }
}

/// The text that names an order: the owner's base58 key, a dash, and the
/// order id in decimal.
pub open spec fn signature_text(key: Seq<u8>, order_id: u32) -> Seq<char> {
    base58_text(key) + seq!['-'] + decimal_text(order_id as nat)
}

pub open spec fn has_no_dash(t: Seq<char>) -> bool {
    forall|i: int| 0 <= i < t.len() ==> t[i] != '-'
}

fn digit(d: u32) -> (c: char)
    requires
        d < 10,
    ensures
        c == digit_char(d as int),
{
    if d == 0 {
        '0'
    } else if d == 1 {
        '1'
    } else if d == 2 {
        '2'
    } else if d == 3 {
        '3'
    } else if d == 4 {
        '4'
    } else if d == 5 {
        '5'
    } else if d == 6 {
        '6'
    } else if d == 7 {
        '7'
    } else if d == 8 {
        '8'
    } else {
        '9'
    }
}

fn push_decimal(s: &mut String, n: u32)
    ensures
        final(s)@ == old(s)@ + decimal_text(n as nat),
    decreases n,
{
    if n >= 10 {
        push_decimal(s, n / 10);
    }
    let c = digit(n % 10);
    push_char(s, c);
    proof {
        if n >= 10 {
            assert(final(s)@ =~= old(s)@ + decimal_text(n as nat));
        } else {
            assert(final(s)@ =~= old(s)@ + decimal_text(n as nat));
        }
    }
}

/// The signature text of an order: its owner's key, a dash, its id.
pub fn get_order_signature(order_id: u32, user_account: &UserKey) -> (r: String)
    ensures
        r@ == signature_text(user_account@, order_id),
        has_no_dash(base58_text(user_account@)),
{
    let mut r = key_text(user_account);
    push_char(&mut r, '-');
    push_decimal(&mut r, order_id);
    proof {
        assert(r@ =~= signature_text(user_account@, order_id));
    }
    r
}

proof fn lemma_decimal_shape(n: nat)
    ensures
        has_no_dash(decimal_text(n)),
        n < 10 ==> decimal_text(n).len() == 1,
        n >= 10 ==> decimal_text(n).len() >= 2,
    decreases n,
{
    if n >= 10 {
        lemma_decimal_shape(n / 10);
        let t = decimal_text(n);
        assert forall|i: int| 0 <= i < t.len() implies t[i] != '-' by {
            if i < t.len() - 1 {
                assert(t[i] == decimal_text(n / 10)[i]);
            }
        }
    }
}

proof fn lemma_decimal_injective(a: nat, b: nat)
    requires
        decimal_text(a) == decimal_text(b),
    ensures
        a == b,
    decreases a,
{
    lemma_decimal_shape(a);
    lemma_decimal_shape(b);
    if a >= 10 && b >= 10 {
        let ta = decimal_text(a);
        assert(ta.last() == digit_char((a % 10) as int));
        assert(decimal_text(b).last() == digit_char((b % 10) as int));
        assert(ta.drop_last() =~= decimal_text(a / 10));
        assert(decimal_text(b).drop_last() =~= decimal_text(b / 10));
        lemma_decimal_injective(a / 10, b / 10);
    } else if a < 10 && b < 10 {
        assert(decimal_text(a)[0] == digit_char(a as int));
        assert(decimal_text(b)[0] == digit_char(b as int));
    }
}

/// Two equal signature texts, whose key texts hold no dash (as every text
/// `get_order_signature` returns), come from equal key texts and equal ids.
pub proof fn lemma_signature_text_injective(k1: Seq<u8>, i1: u32, k2: Seq<u8>, i2: u32)
    requires
        signature_text(k1, i1) == signature_text(k2, i2),
        has_no_dash(base58_text(k1)),
        has_no_dash(base58_text(k2)),
    ensures
        base58_text(k1) == base58_text(k2),
        i1 == i2,
{
    let s = signature_text(k1, i1);
    let a = base58_text(k1);
    let b = base58_text(k2);
    let d1 = decimal_text(i1 as nat);
    let d2 = decimal_text(i2 as nat);
    lemma_decimal_shape(i1 as nat);
    lemma_decimal_shape(i2 as nat);
    assert(s[a.len() as int] == '-');
    assert(signature_text(k2, i2)[b.len() as int] == '-');
    if a.len() < b.len() {
        assert(s[a.len() as int] == b[a.len() as int]);
    } else if b.len() < a.len() {
        assert(s[b.len() as int] == a[b.len() as int]);
    }
    assert(a =~= s.subrange(0, a.len() as int));
    assert(b =~= s.subrange(0, b.len() as int));
    assert(d1 =~= s.subrange(a.len() as int + 1, s.len() as int));
    assert(d2 =~= s.subrange(b.len() as int + 1, s.len() as int));
    lemma_decimal_injective(i1 as nat, i2 as nat);
}

/// Which end of the price scale a list holds first.
#[derive(Clone, Copy, Debug, PartialEq, Eq, Structural)]
pub enum SortDirection {
    Asc,
    Desc,
}

/// Sort value `a` belongs strictly ahead of sort value `b`.
pub open spec fn precedes(dir: SortDirection, a: i128, b: i128) -> bool {
    match dir {
        SortDirection::Asc => a < b,
        SortDirection::Desc => a > b,
    }
}

pub open spec fn node_sig(n: OrderNode) -> (Seq<u8>, u32) {
    signature_view(n.user_account, n.order.order_id)
}

/// No node sorts strictly ahead of one that comes before it.
pub open spec fn sorted(dir: SortDirection, s: Seq<OrderNode>) -> bool {
    forall|i: int, j: int|
        0 <= i < j < s.len() ==> !precedes(dir, #[trigger] s[j].sort_value, #[trigger] s[i].sort_value)
}

pub open spec fn unique_signatures(s: Seq<OrderNode>) -> bool {
    forall|i: int, j: int|
        0 <= i < s.len() && 0 <= j < s.len() && i != j ==> node_sig(#[trigger] s[i]) != node_sig(
            #[trigger] s[j],
        )
}

pub open spec fn contains_sig(s: Seq<OrderNode>, sig: (Seq<u8>, u32)) -> bool {
    exists|i: int| 0 <= i < s.len() && node_sig(#[trigger] s[i]) == sig
}

pub open spec fn sig_index(s: Seq<OrderNode>, sig: (Seq<u8>, u32)) -> int {
    choose|i: int| 0 <= i < s.len() && node_sig(#[trigger] s[i]) == sig
}

/// Where a node with sort value `v` goes: before the first node that it
/// sorts strictly ahead of, else at the end (so equal values keep arrival order).
pub open spec fn insert_pos(dir: SortDirection, s: Seq<OrderNode>, v: i128) -> int
    decreases s.len(),
{
    if s.len() == 0 {
        0
    } else if precedes(dir, v, s[0].sort_value) {
        0
    } else {
        1 + insert_pos(dir, s.drop_first(), v)
    }
}

/// The nodes after inserting `order` of `user`: unchanged for an order still in
/// `Init` or one whose signature is already there.
pub open spec fn inserted(dir: SortDirection, s: Seq<OrderNode>, order: Order, user: UserKey) -> Seq<
    OrderNode,
> {
    if order.status == OrderStatus::Init || contains_sig(s, signature_view(user, order.order_id)) {
        s
    } else {
        s.insert(insert_pos(dir, s, sort_value_of(order)), node_of(order, user))
    }
}

/// The nodes after replacing the node of that signature in place, if there is one.
pub open spec fn updated(s: Seq<OrderNode>, order: Order, user: UserKey) -> Seq<OrderNode> {
    let sig = signature_view(user, order.order_id);
    if contains_sig(s, sig) {
        s.update(sig_index(s, sig), node_of(order, user))
    } else {
        s
    }
}

/// The nodes after dropping the node of that signature, if there is one.
pub open spec fn removed(s: Seq<OrderNode>, sig: (Seq<u8>, u32)) -> Seq<OrderNode> {
    if contains_sig(s, sig) {
        s.remove(sig_index(s, sig))
    } else {
        s
    }
}

pub proof fn lemma_sig_index(s: Seq<OrderNode>, sig: (Seq<u8>, u32), i: int)
    requires
        unique_signatures(s),
        0 <= i < s.len(),
        node_sig(s[i]) == sig,
    ensures
        contains_sig(s, sig),
        sig_index(s, sig) == i,
{
    assert(contains_sig(s, sig));
    let j = sig_index(s, sig);
    assert(node_sig(s[j]) == sig);
}

/// The nodes of one cell, best price first.
pub struct NodeList {
    nodes: Vec<OrderNode>,
    node_type: DLOBNodeType,
    sort_direction: SortDirection,
}

impl NodeList {
    pub closed spec fn view(&self) -> Seq<OrderNode> {
        self.nodes@
    }

    pub closed spec fn direction(&self) -> SortDirection {
        self.sort_direction
    }

    pub closed spec fn kind(&self) -> DLOBNodeType {
        self.node_type
    }

    /// At most one node per signature.
    pub open spec fn wf(&self) -> bool {
        unique_signatures(self@)
    }

    pub open spec fn is_sorted(&self) -> bool {
        sorted(self.direction(), self@)
    }

    pub fn new(node_type: DLOBNodeType, sort_direction: SortDirection) -> (r: NodeList)
        ensures
            r@ == Seq::<OrderNode>::empty(),
            r.kind() == node_type,
            r.direction() == sort_direction,
            r.wf(),
            r.is_sorted(),
    {
        NodeList { nodes: Vec::new(), node_type, sort_direction }
    }

    pub fn clear(&mut self)
        ensures
            final(self)@ == Seq::<OrderNode>::empty(),
            final(self).kind() == old(self).kind(),
            final(self).direction() == old(self).direction(),
            final(self).wf(),
            final(self).is_sorted(),
    {
        self.nodes.clear();
    }

    pub fn len(&self) -> (r: usize)
        ensures
            r == self@.len(),
    {
        self.nodes.len()
    }

    pub fn node_type(&self) -> (r: DLOBNodeType)
        ensures
            r == self.kind(),
    {
        self.node_type
    }

    pub fn sort_direction(&self) -> (r: SortDirection)
        ensures
            r == self.direction(),
    {
        self.sort_direction
    }

    /// The position of the node with that signature.
    pub fn position(&self, order_id: u32, user_account: &UserKey) -> (r: Option<usize>)
        ensures
            r is None ==> !contains_sig(self@, signature_view(*user_account, order_id)),
            r matches Some(i) ==> i < self@.len() && node_sig(self@[i as int]) == signature_view(
                *user_account,
                order_id,
            ),
    {
        let ghost sig = signature_view(*user_account, order_id);
        let mut i: usize = 0;
        while i < self.nodes.len()
            invariant
                0 <= i <= self@.len(),
                sig == signature_view(*user_account, order_id),
                forall|j: int| 0 <= j < i ==> node_sig(#[trigger] self@[j]) != sig,
            decreases self@.len() - i,
        {
            let n = &self.nodes[i];
            if n.order.order_id == order_id {
                if n.user_account.same_as(user_account) {
                    return Some(i);
                }
            }
            assert(*n == self@[i as int]);
            i = i + 1;
        }
        None
    }

    fn prepend_node(&self, current_node: &OrderNode, new_node: &OrderNode) -> (r: bool)
        ensures
            r == precedes(self.direction(), new_node.sort_value, current_node.sort_value),
    {
        match self.sort_direction {
            SortDirection::Asc => new_node.sort_value < current_node.sort_value,
            SortDirection::Desc => new_node.sort_value > current_node.sort_value,
        }
    }

    /// Adds the order at its sorted place, after any node of equal sort value.
    pub fn insert(&mut self, order: Order, user_account: UserKey)
        requires
            old(self).wf(),
        ensures
            final(self).wf(),
            final(self)@ == inserted(old(self).direction(), old(self)@, order, user_account),
            final(self).kind() == old(self).kind(),
            final(self).direction() == old(self).direction(),
            old(self).is_sorted() ==> final(self).is_sorted(),
    {
        if order.status == OrderStatus::Init {
            return;
        }
        if self.position(order.order_id, &user_account).is_some() {
            return;
        }
        let new_node = OrderNode::new(order, user_account);
        let ghost s = self@;
        let ghost dir = self.direction();
        let ghost v = new_node.sort_value;
        let mut i: usize = 0;
        let mut found = false;
        while i < self.nodes.len() && !found
            invariant
                0 <= i <= s.len(),
                self@ == s,
                self.direction() == dir,
                v == new_node.sort_value,
                forall|j: int| 0 <= j < i ==> !precedes(dir, v, #[trigger] s[j].sort_value),
                found ==> i < s.len() && precedes(dir, v, s[i as int].sort_value),
            decreases s.len() - i + (if found { 0int } else { 1int }),
        {
            if self.prepend_node(&self.nodes[i], &new_node) {
                found = true;
            } else {
                i = i + 1;
            }
        }
        proof {
            lemma_insert_pos_bounds(dir, s, v);
        }
        self.nodes.insert(i, new_node);
        proof {
            let t = self@;
            let k = i as int;
            assert forall|a: int, b: int|
                0 <= a < t.len() && 0 <= b < t.len() && a != b implies node_sig(#[trigger] t[a])
                != node_sig(#[trigger] t[b]) by {
                if a != k && b != k {
                    let a0 = if a < k { a } else { a - 1 };
                    let b0 = if b < k { b } else { b - 1 };
                    assert(t[a] == s[a0] && t[b] == s[b0]);
                } else if a == k {
                    let b0 = if b < k { b } else { b - 1 };
                    assert(t[b] == s[b0]);
                } else {
                    let a0 = if a < k { a } else { a - 1 };
                    assert(t[a] == s[a0]);
                }
            }
            if sorted(dir, s) {
                lemma_inserted_sorted(dir, s, order, user_account);
            }
        }
    }

    /// Replaces the node of that signature with one built from the new
    /// snapshot, in the same place.
    pub fn update(&mut self, order: Order, user_account: UserKey)
        requires
            old(self).wf(),
        ensures
            final(self).wf(),
            final(self)@ == updated(old(self)@, order, user_account),
            final(self).kind() == old(self).kind(),
            final(self).direction() == old(self).direction(),
            old(self).is_sorted() && keeps_sort_value(old(self)@, order, user_account)
                ==> final(self).is_sorted(),
    {
        match self.position(order.order_id, &user_account) {
            Some(i) => {
                proof {
                    lemma_sig_index(self@, signature_view(user_account, order.order_id), i as int);
                }
                let ghost s = self@;
                let new_node = OrderNode::new(order, user_account);
                self.nodes.set(i, new_node);
                proof {
                    let t = self@;
                    assert forall|a: int, b: int|
                        0 <= a < t.len() && 0 <= b < t.len() && a != b implies node_sig(
                            #[trigger] t[a],
                        ) != node_sig(#[trigger] t[b]) by {
                        if a != i && b != i {
                            assert(t[a] == s[a] && t[b] == s[b]);
                        } else if a == i {
                            assert(t[b] == s[b]);
                        } else {
                            assert(t[a] == s[a]);
                        }
                    }
                }
            },
            None => {},
        }
    }

    /// Drops the node of that signature, if there is one.
    pub fn remove(&mut self, order: Order, user_account: UserKey)
        requires
            old(self).wf(),
        ensures
            final(self).wf(),
            final(self)@ == removed(old(self)@, signature_view(user_account, order.order_id)),
            final(self).kind() == old(self).kind(),
            final(self).direction() == old(self).direction(),
            old(self).is_sorted() ==> final(self).is_sorted(),
    {
        match self.position(order.order_id, &user_account) {
            Some(i) => {
                proof {
                    lemma_sig_index(self@, signature_view(user_account, order.order_id), i as int);
                }
                let ghost s = self@;
                self.nodes.remove(i);
                proof {
                    let t = self@;
                    let k = i as int;
                    assert forall|a: int| 0 <= a < t.len() implies #[trigger] t[a] == (if a < k {
                        s[a]
                    } else {
                        s[a + 1]
                    }) by {}
                }
            },
            None => {},
        }
    }

    pub fn has(&self, order: Order, user_account: UserKey) -> (r: bool)
        ensures
            r == contains_sig(self@, signature_view(user_account, order.order_id)),
    {
        self.position(order.order_id, &user_account).is_some()
    }

    /// The first node, head first, whose signature text is `order_signature`,
    /// tagged with this list's classification. Its key text holds no dash, so
    /// `lemma_signature_text_injective` identifies it with the owner and id
    /// that `order_signature` was made from.
    pub fn get(&self, order_signature: &String) -> (r: Option<DLOBNodeOrders>)
        ensures
            r is None ==> forall|i: int|
                0 <= i < self@.len() ==> signature_text(
                    #[trigger] self@[i].user_account@,
                    self@[i].order.order_id,
                ) != order_signature@,
            r matches Some(n) ==> exists|i: int|
                0 <= i < self@.len() && signature_text(
                    #[trigger] self@[i].user_account@,
                    self@[i].order.order_id,
                ) == order_signature@ && n == tag_node(self.kind(), self@[i]) && has_no_dash(
                    base58_text(self@[i].user_account@),
                ) && forall|j: int|
                    0 <= j < i ==> signature_text(
                        #[trigger] self@[j].user_account@,
                        self@[j].order.order_id,
                    ) != order_signature@,
    {
        let mut i: usize = 0;
        while i < self.nodes.len()
            invariant
                0 <= i <= self@.len(),
                forall|j: int|
                    0 <= j < i ==> signature_text(
                        #[trigger] self@[j].user_account@,
                        self@[j].order.order_id,
                    ) != order_signature@,
            decreases self@.len() - i,
        {
            let n = self.nodes[i];
            let text = get_order_signature(n.order.order_id, &n.user_account);
            if text == *order_signature {
                return Some(tag_order_node(self.node_type, n));
            }
            i = i + 1;
        }
        None
    }

    /// The node of that order id and owner, tagged with this list's classification.
    pub fn get_by_key(&self, order_id: u32, user_account: &UserKey) -> (r: Option<DLOBNodeOrders>)
        requires
            self.wf(),
        ensures
            r is None ==> !contains_sig(self@, signature_view(*user_account, order_id)),
            r matches Some(n) ==> contains_sig(self@, signature_view(*user_account, order_id))
                && n == tag_node(
                self.kind(),
                self@[sig_index(self@, signature_view(*user_account, order_id))],
            ),
    {
        match self.position(order_id, user_account) {
            Some(i) => {
                proof {
                    lemma_sig_index(self@, signature_view(*user_account, order_id), i as int);
                }
                Some(tag_order_node(self.node_type, self.nodes[i]))
            },
            None => None,
        }
    }

    /// The nodes from head to tail.
    pub fn nodes(&self) -> (r: Vec<OrderNode>)
        ensures
            r@ == self@,
    {
        let mut r: Vec<OrderNode> = Vec::new();
        let mut i: usize = 0;
        while i < self.nodes.len()
            invariant
                0 <= i <= self@.len(),
                r@ == self@.subrange(0, i as int),
            decreases self@.len() - i,
        {
            r.push(self.nodes[i]);
            i = i + 1;
        }
        proof {
            assert(r@ =~= self@);
        }
        r
    }

    /// The order of the node at position `i`.
    pub fn order_at(&self, i: usize) -> (r: Order)
        requires
            i < self@.len(),
        ensures
            r == self@[i as int].order,
    {
        self.nodes[i].order
    }

    /// A separate list with the same nodes, classification and direction.
    pub fn duplicate(&self) -> (r: NodeList)
        ensures
            r@ == self@,
            r.kind() == self.kind(),
            r.direction() == self.direction(),
    {
        NodeList { nodes: self.nodes(), node_type: self.node_type, sort_direction: self.sort_direction }
    }

    pub fn iter(&self) -> (r: NodeListIter<'_>)
        ensures
            r.list() == self,
            r.position() == 0,
    {
        NodeListIter { list: self, position: 0 }
    }
}

/// A forward walk over a list's nodes, head first.
pub struct NodeListIter<'a> {
    list: &'a NodeList,
    position: usize,
}

impl<'a> NodeListIter<'a> {
    pub closed spec fn list(&self) -> &'a NodeList {
        self.list
    }

    pub closed spec fn position(&self) -> nat {
        self.position as nat
    }

    pub fn next(&mut self) -> (r: Option<DLOBNodeOrders>)
        ensures
            final(self).list() == old(self).list(),
            old(self).position() < old(self).list()@.len() ==> r == Some(
                tag_node(old(self).list().kind(), old(self).list()@[old(self).position() as int]),
            ) && final(self).position() == old(self).position() + 1,
            old(self).position() >= old(self).list()@.len() ==> r is None && final(self).position()
                == old(self).position(),
    {
        if self.position < self.list.nodes.len() {
            let n = self.list.nodes[self.position];
            self.position = self.position + 1;
            Some(tag_order_node(self.list.node_type, n))
        } else {
            None
        }
    }
}

/// A node inserted into a sorted list lands after every node of equal sort
/// value, so equal prices keep their order of arrival.
pub proof fn lemma_insert_keeps_arrival_order(
    dir: SortDirection,
    s: Seq<OrderNode>,
    order: Order,
    user: UserKey,
)
    requires
        sorted(dir, s),
        order.status != OrderStatus::Init,
        !contains_sig(s, signature_view(user, order.order_id)),
    ensures
        ({
            let t = inserted(dir, s, order, user);
            let k = insert_pos(dir, s, sort_value_of(order));
            &&& 0 <= k < t.len()
            &&& t[k] == node_of(order, user)
            &&& forall|j: int|
                0 <= j < t.len() && j != k && (#[trigger] t[j]).sort_value == sort_value_of(order)
                    ==> j < k
        }),
{
    let v = sort_value_of(order);
    lemma_insert_pos_bounds(dir, s, v);
    let k = insert_pos(dir, s, v);
    let t = inserted(dir, s, order, user);
    assert forall|j: int|
        0 <= j < t.len() && j != k && (#[trigger] t[j]).sort_value == v implies j < k by {
        if j > k {
            assert(t[j] == s[j - 1]);
            assert(precedes(dir, v, s[k].sort_value));
            if j - 1 > k {
                assert(!precedes(dir, s[j - 1].sort_value, s[k].sort_value));
            }
        }
    }
}

proof fn lemma_insert_pos_bounds(dir: SortDirection, s: Seq<OrderNode>, v: i128)
    ensures
        0 <= insert_pos(dir, s, v) <= s.len(),
        forall|j: int|
            0 <= j < insert_pos(dir, s, v) ==> !precedes(dir, v, #[trigger] s[j].sort_value),
        insert_pos(dir, s, v) < s.len() ==> precedes(dir, v, s[insert_pos(dir, s, v)].sort_value),
    decreases s.len(),
{
    if s.len() > 0 && !precedes(dir, v, s[0].sort_value) {
        let t = s.drop_first();
        lemma_insert_pos_bounds(dir, t, v);
        assert forall|j: int| 0 <= j < insert_pos(dir, s, v) implies !precedes(
            dir,
            v,
            #[trigger] s[j].sort_value,
        ) by {
            if j > 0 {
                assert(s[j] == t[j - 1]);
            }
        }
        if insert_pos(dir, s, v) < s.len() {
            assert(s[insert_pos(dir, s, v)] == t[insert_pos(dir, t, v)]);
        }
    }
}

/// In a well-formed list the number of nodes is the number of distinct
/// signatures present.
pub proof fn lemma_length_counts_signatures(list: &NodeList)
    requires
        list.wf(),
    ensures
        list@.len() == list@.map_values(|n: OrderNode| node_sig(n)).to_set().len(),
{
    let sigs = list@.map_values(|n: OrderNode| node_sig(n));
    assert forall|i: int, j: int| 0 <= i < sigs.len() && 0 <= j < sigs.len() && i != j implies sigs[i]
        != sigs[j] by {
        assert(node_sig(list@[i]) != node_sig(list@[j]));
    }
    assert(sigs.no_duplicates());
    sigs.unique_seq_to_set();
}

/// Inserting the same order of the same owner a second time changes nothing.
pub proof fn lemma_duplicate_insert_idempotent(
    dir: SortDirection,
    s: Seq<OrderNode>,
    order: Order,
    user: UserKey,
)
    ensures
        inserted(dir, inserted(dir, s, order, user), order, user) == inserted(dir, s, order, user),
{
    let sig = signature_view(user, order.order_id);
    if order.status != OrderStatus::Init && !contains_sig(s, sig) {
        lemma_insert_pos_bounds(dir, s, sort_value_of(order));
        let t = inserted(dir, s, order, user);
        let k = insert_pos(dir, s, sort_value_of(order));
        assert(node_sig(t[k]) == sig);
        assert(contains_sig(t, sig));
    }
}

/// Inserting never drops a signature that was present, and an order not in
/// `Init` is present afterwards.
pub proof fn lemma_inserted_contains(
    dir: SortDirection,
    s: Seq<OrderNode>,
    order: Order,
    user: UserKey,
    sig: (Seq<u8>, u32),
)
    ensures
        contains_sig(s, sig) ==> contains_sig(inserted(dir, s, order, user), sig),
        order.status != OrderStatus::Init ==> contains_sig(
            inserted(dir, s, order, user),
            signature_view(user, order.order_id),
        ),
{
    let own = signature_view(user, order.order_id);
    if order.status != OrderStatus::Init && !contains_sig(s, own) {
        lemma_insert_pos_bounds(dir, s, sort_value_of(order));
        let k = insert_pos(dir, s, sort_value_of(order));
        let t = inserted(dir, s, order, user);
        assert(node_sig(t[k]) == own);
        if contains_sig(s, sig) {
            let i = choose|i: int| 0 <= i < s.len() && node_sig(#[trigger] s[i]) == sig;
            if i < k {
                assert(t[i] == s[i]);
            } else {
                assert(t[i + 1] == s[i]);
            }
        }
    }
}

/// Inserting into a sorted list keeps it sorted.
pub proof fn lemma_inserted_sorted(dir: SortDirection, s: Seq<OrderNode>, order: Order, user: UserKey)
    requires
        sorted(dir, s),
    ensures
        sorted(dir, inserted(dir, s, order, user)),
{
    if order.status != OrderStatus::Init && !contains_sig(s, signature_view(user, order.order_id)) {
        let v = sort_value_of(order);
        lemma_insert_pos_bounds(dir, s, v);
        let k = insert_pos(dir, s, v);
        let t = inserted(dir, s, order, user);
        assert forall|a: int, b: int| 0 <= a < b < t.len() implies !precedes(
            dir,
            #[trigger] t[b].sort_value,
            #[trigger] t[a].sort_value,
        ) by {
            if b < k {
                assert(t[a] == s[a] && t[b] == s[b]);
            } else if b == k {
                assert(t[a] == s[a]);
            } else if a == k {
                assert(t[b] == s[b - 1]);
                if b - 1 > k {
                    assert(!precedes(dir, s[b - 1].sort_value, s[k].sort_value));
                }
            } else if a < k {
                assert(t[a] == s[a] && t[b] == s[b - 1]);
            } else {
                assert(t[a] == s[a - 1] && t[b] == s[b - 1]);
            }
        }
    }
}

/// Removing a node from a sorted list keeps it sorted.
pub proof fn lemma_removed_sorted(dir: SortDirection, s: Seq<OrderNode>, sig: (Seq<u8>, u32))
    requires
        sorted(dir, s),
    ensures
        sorted(dir, removed(s, sig)),
{
    if contains_sig(s, sig) {
        let k = sig_index(s, sig);
        let t = removed(s, sig);
        assert forall|a: int, b: int| 0 <= a < b < t.len() implies !precedes(
            dir,
            #[trigger] t[b].sort_value,
            #[trigger] t[a].sort_value,
        ) by {
            let a0 = if a < k { a } else { a + 1 };
            let b0 = if b < k { b } else { b + 1 };
            assert(t[a] == s[a0] && t[b] == s[b0]);
        }
    }
}

/// A node of that order's signature, if any, already sorts by the order's price.
pub open spec fn keeps_sort_value(s: Seq<OrderNode>, order: Order, user: UserKey) -> bool {
    forall|i: int|
        0 <= i < s.len() && node_sig(#[trigger] s[i]) == signature_view(user, order.order_id)
            ==> s[i].sort_value == sort_value_of(order)
}

/// Replacing a node of a sorted list by one of the same sort value keeps it sorted.
pub proof fn lemma_updated_sorted(dir: SortDirection, s: Seq<OrderNode>, order: Order, user: UserKey)
    requires
        sorted(dir, s),
        keeps_sort_value(s, order, user),
    ensures
        sorted(dir, updated(s, order, user)),
{
    let sig = signature_view(user, order.order_id);
    if contains_sig(s, sig) {
        let k = sig_index(s, sig);
        let t = updated(s, order, user);
        assert(s[k].sort_value == sort_value_of(order));
        assert forall|a: int, b: int| 0 <= a < b < t.len() implies !precedes(
            dir,
            #[trigger] t[b].sort_value,
            #[trigger] t[a].sort_value,
        ) by {
            assert(t[a].sort_value == s[a].sort_value && t[b].sort_value == s[b].sort_value);
        }
    }
}

/// No node holds an order still in `Init`.
pub open spec fn no_init(s: Seq<OrderNode>) -> bool {
    forall|i: int| 0 <= i < s.len() ==> (#[trigger] s[i]).order.status != OrderStatus::Init
}

/// Inserting, removing, or updating with an order not in `Init`, keeps
/// `Init` orders out of a list.
pub proof fn lemma_no_init_kept(s: Seq<OrderNode>, order: Order, user: UserKey, dir: SortDirection)
    requires
        no_init(s),
    ensures
        no_init(inserted(dir, s, order, user)),
        no_init(removed(s, signature_view(user, order.order_id))),
        order.status != OrderStatus::Init ==> no_init(updated(s, order, user)),
{
    let v = sort_value_of(order);
    lemma_insert_pos_bounds(dir, s, v);
    let t = inserted(dir, s, order, user);
    if order.status != OrderStatus::Init && !contains_sig(s, signature_view(user, order.order_id)) {
        let k = insert_pos(dir, s, v);
        assert forall|i: int| 0 <= i < t.len() implies (#[trigger] t[i]).order.status
            != OrderStatus::Init by {
            if i < k {
                assert(t[i] == s[i]);
            } else if i > k {
                assert(t[i] == s[i - 1]);
            }
        }
    }
    let sig = signature_view(user, order.order_id);
    if contains_sig(s, sig) {
        let r = removed(s, sig);
        let k = sig_index(s, sig);
        assert forall|i: int| 0 <= i < r.len() implies (#[trigger] r[i]).order.status
            != OrderStatus::Init by {
            if i < k {
                assert(r[i] == s[i]);
            } else {
                assert(r[i] == s[i + 1]);
            }
        }
    }
}

/// Once removed from a list with unique signatures, a signature is absent.
pub proof fn lemma_removed_absent(s: Seq<OrderNode>, sig: (Seq<u8>, u32))
    requires
        unique_signatures(s),
    ensures
        !contains_sig(removed(s, sig), sig),
{
    if contains_sig(s, sig) {
        let k = sig_index(s, sig);
        let t = removed(s, sig);
        assert forall|i: int| 0 <= i < t.len() implies node_sig(#[trigger] t[i]) != sig by {
            if i < k {
                assert(t[i] == s[i]);
            } else {
                assert(t[i] == s[i + 1]);
            }
        }
    }
}

} // verus!
