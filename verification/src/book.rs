//! Orders, markets, and the price-time-priority matching step.
use vstd::prelude::*;

verus! {

/// The side of an order: an `Ask` offers the market's asset for the base
/// asset, a `Bid` offers the base asset for the market's asset.
#[derive(Clone, Copy, Debug, PartialEq, Eq, Structural)]
pub enum OrderType {
    Ask,
    Bid,
}

/// One order: who submitted it, its side, its limit price in the base asset
/// (an integer quote; every price-to-amount conversion multiplies exactly,
/// with no rounding), and its quantity in the market's asset.
#[derive(Debug, PartialEq)]
pub struct Order {
    pub order_actor: String,
    pub order_type: OrderType,
    pub order_price: u64,
    pub order_quantity: u128,
}

/// The mathematical value of an [`Order`]: the actor as a character sequence,
/// the other fields as themselves.
#[verifier::ext_equal]
pub ghost struct OrderV {
    pub actor: Seq<char>,
    pub ty: OrderType,
    pub price: u64,
    pub quantity: u128,
}

impl View for Order {
    type V = OrderV;

    open spec fn view(&self) -> OrderV {
        OrderV {
            actor: self.order_actor@,
            ty: self.order_type,
            price: self.order_price,
            quantity: self.order_quantity,
        }
    }
}

impl DeepView for Order {
    type V = OrderV;

    open spec fn deep_view(&self) -> OrderV {
        self.view()
    }
}

impl Clone for Order {
    fn clone(&self) -> (r: Order)
        ensures
            r@ == self@,
    {
        Order {
            order_actor: self.order_actor.clone(),
            order_type: self.order_type,
            order_price: self.order_price,
            order_quantity: self.order_quantity,
        }
    }
}

/// One market: the resting sell orders (`ask_orders`, kept non-decreasing by
/// price) and the resting buy orders (`bid_orders`, kept non-increasing by
/// price).
#[derive(Debug, PartialEq)]
pub struct Market {
    pub ask_orders: Vec<Order>,
    pub bid_orders: Vec<Order>,
}

/// The mathematical value of a [`Market`]: its two order lists.
#[verifier::ext_equal]
pub ghost struct MarketV {
    pub asks: Seq<OrderV>,
    pub bids: Seq<OrderV>,
}

impl View for Market {
    type V = MarketV;

    open spec fn view(&self) -> MarketV {
        MarketV { asks: self.ask_orders.deep_view(), bids: self.bid_orders.deep_view() }
    }
}

impl DeepView for Market {
    type V = MarketV;

    open spec fn deep_view(&self) -> MarketV {
        self.view()
    }
}

/// An ask list is sorted when prices never decrease from front to back.
pub open spec fn asks_sorted(s: Seq<OrderV>) -> bool {
    forall|i: int, j: int| 0 <= i < j < s.len() ==> s[i].price <= s[j].price
}

/// A bid list is sorted when prices never increase from front to back.
pub open spec fn bids_sorted(s: Seq<OrderV>) -> bool {
    forall|i: int, j: int| 0 <= i < j < s.len() ==> s[i].price >= s[j].price
}

/// Every order resident in a book carries a positive quantity.
pub open spec fn all_qty_positive(s: Seq<OrderV>) -> bool {
    forall|i: int| 0 <= i < s.len() ==> s[i].quantity > 0
}

/// A market is well formed when both sides are sorted best-price-first and
/// hold only positive quantities.
pub open spec fn market_wf(m: MarketV) -> bool {
    &&& asks_sorted(m.asks)
    &&& bids_sorted(m.bids)
    &&& all_qty_positive(m.asks)
    &&& all_qty_positive(m.bids)
}

/// Whether a resting counter-order's price is acceptable to an incoming
/// order: a bid at or above an incoming ask's price, an ask at or below an
/// incoming bid's price.
pub open spec fn accepts(resting_price: u64, incoming: OrderV) -> bool {
    match incoming.ty {
        OrderType::Ask => resting_price >= incoming.price,
        OrderType::Bid => resting_price <= incoming.price,
    }
}

/// The index of the first order in `s` whose price is acceptable to
/// `incoming`, or `s.len()` when none is.
pub open spec fn first_match_ix(s: Seq<OrderV>, incoming: OrderV) -> int
    decreases s.len(),
{
    if s.len() == 0 {
        0
    } else if accepts(s[0].price, incoming) {
        0
    } else {
        1 + first_match_ix(s.drop_first(), incoming)
    }
}

/// `first_match_ix` is the first acceptable index: everything before it is
/// unacceptable, and it is in range exactly when something acceptable exists.
pub proof fn lemma_first_match_ix(s: Seq<OrderV>, incoming: OrderV)
    ensures
        0 <= first_match_ix(s, incoming) <= s.len(),
        first_match_ix(s, incoming) < s.len() ==> accepts(s[first_match_ix(s, incoming)].price, incoming),
        forall|j: int| 0 <= j < first_match_ix(s, incoming) ==> !accepts(s[j].price, incoming),
    decreases s.len(),
{
    if s.len() > 0 && !accepts(s[0].price, incoming) {
        lemma_first_match_ix(s.drop_first(), incoming);
        assert forall|j: int| 0 <= j < first_match_ix(s, incoming) implies !accepts(
            s[j].price,
            incoming,
        ) by {
            if j > 0 {
                assert(s[j] == s.drop_first()[j - 1]);
            }
        }
    }
}

/// The place where a new ask of price `p` rests: after every ask priced at or
/// below `p`, so that earlier orders at the same price keep their priority.
pub open spec fn ask_insert_ix(s: Seq<OrderV>, p: u64) -> int
    decreases s.len(),
{
    if s.len() == 0 {
        0
    } else if s[0].price > p {
        0
    } else {
        1 + ask_insert_ix(s.drop_first(), p)
    }
}

/// The place where a new bid of price `p` rests: after every bid priced at or
/// above `p`.
pub open spec fn bid_insert_ix(s: Seq<OrderV>, p: u64) -> int
    decreases s.len(),
{
    if s.len() == 0 {
        0
    } else if s[0].price < p {
        0
    } else {
        1 + bid_insert_ix(s.drop_first(), p)
    }
}

/// An ask list after a new order comes to rest in price order.
pub open spec fn insert_ask(s: Seq<OrderV>, o: OrderV) -> Seq<OrderV> {
    s.insert(ask_insert_ix(s, o.price), o)
}

/// A bid list after a new order comes to rest in price order.
pub open spec fn insert_bid(s: Seq<OrderV>, o: OrderV) -> Seq<OrderV> {
    s.insert(bid_insert_ix(s, o.price), o)
}

/// `ask_insert_ix` lands after all prices `<= p` and before all prices `> p`.
pub proof fn lemma_ask_insert_ix(s: Seq<OrderV>, p: u64)
    ensures
        0 <= ask_insert_ix(s, p) <= s.len(),
        forall|j: int| 0 <= j < ask_insert_ix(s, p) ==> s[j].price <= p,
        ask_insert_ix(s, p) < s.len() ==> s[ask_insert_ix(s, p)].price > p,
    decreases s.len(),
{
    if s.len() > 0 && !(s[0].price > p) {
        lemma_ask_insert_ix(s.drop_first(), p);
        assert forall|j: int| 0 <= j < ask_insert_ix(s, p) implies s[j].price <= p by {
            if j > 0 {
                assert(s[j] == s.drop_first()[j - 1]);
            }
        }
    }
}

/// `bid_insert_ix` lands after all prices `>= p` and before all prices `< p`.
pub proof fn lemma_bid_insert_ix(s: Seq<OrderV>, p: u64)
    ensures
        0 <= bid_insert_ix(s, p) <= s.len(),
        forall|j: int| 0 <= j < bid_insert_ix(s, p) ==> s[j].price >= p,
        bid_insert_ix(s, p) < s.len() ==> s[bid_insert_ix(s, p)].price < p,
    decreases s.len(),
{
    if s.len() > 0 && !(s[0].price < p) {
        lemma_bid_insert_ix(s.drop_first(), p);
        assert forall|j: int| 0 <= j < bid_insert_ix(s, p) implies s[j].price >= p by {
            if j > 0 {
                assert(s[j] == s.drop_first()[j - 1]);
            }
        }
    }
}

/// Sorted insertion keeps an ask list sorted, and sorted removal or update of
/// quantity keeps any list sorted because prices are untouched.
pub proof fn lemma_insert_ask_sorted(s: Seq<OrderV>, o: OrderV)
    requires
        asks_sorted(s),
    ensures
        asks_sorted(insert_ask(s, o)),
{
    lemma_ask_insert_ix(s, o.price);
    let ix = ask_insert_ix(s, o.price);
    let t = insert_ask(s, o);
    assert forall|i: int, j: int| 0 <= i < j < t.len() implies t[i].price <= t[j].price by {
        if i < ix && j < ix {
        } else if i < ix && j == ix {
        } else if i < ix && j > ix {
            assert(t[j] == s[j - 1]);
        } else if i == ix && j > ix {
            assert(t[j] == s[j - 1]);
        } else if i > ix && j > ix {
            assert(t[i] == s[i - 1]);
            assert(t[j] == s[j - 1]);
        }
    }
}

/// Sorted insertion keeps a bid list sorted.
pub proof fn lemma_insert_bid_sorted(s: Seq<OrderV>, o: OrderV)
    requires
        bids_sorted(s),
    ensures
        bids_sorted(insert_bid(s, o)),
{
    lemma_bid_insert_ix(s, o.price);
    let ix = bid_insert_ix(s, o.price);
    let t = insert_bid(s, o);
    assert forall|i: int, j: int| 0 <= i < j < t.len() implies t[i].price >= t[j].price by {
        if i < ix && j < ix {
        } else if i < ix && j == ix {
        } else if i < ix && j > ix {
            assert(t[j] == s[j - 1]);
        } else if i == ix && j > ix {
            assert(t[j] == s[j - 1]);
        } else if i > ix && j > ix {
            assert(t[i] == s[i - 1]);
            assert(t[j] == s[j - 1]);
        }
    }
}

/// The outcome of a successful match: the two counterparties, and the
/// quantity and price at which they settle.
pub ghost struct MatchV {
    pub bid_actor: Seq<char>,
    pub ask_actor: Seq<char>,
    pub quantity: u128,
    pub price: u64,
}

/// What one matching step does to a market: the market afterwards, the match
/// found (if any), and the incoming order's remaining value.
///
/// The incoming order scans the opposing side, already sorted best price
/// first, for the first acceptable counter-order. With none found it comes to
/// rest on its own side. With one found, the matched quantity is the smaller
/// of the two quantities and the trade settles at the resting order's price;
/// the counter-order is reduced or removed, and a positive remainder of the
/// incoming order comes to rest on its own side. At most one counter-order is
/// ever touched.
pub open spec fn spec_process(o: OrderV, m: MarketV) -> (MarketV, Option<MatchV>, OrderV) {
    match o.ty {
        OrderType::Ask => {
            let ix = first_match_ix(m.bids, o);
            if ix == m.bids.len() {
                (MarketV { asks: insert_ask(m.asks, o), bids: m.bids }, None::<MatchV>, o)
            } else {
                let c = m.bids[ix];
                let mq = if o.quantity <= c.quantity {
                    o.quantity
                } else {
                    c.quantity
                };
                let bids2 = if c.quantity > mq {
                    m.bids.update(
                        ix,
                        OrderV {
                            actor: c.actor,
                            ty: c.ty,
                            price: c.price,
                            quantity: (c.quantity - mq) as u128,
                        },
                    )
                } else {
                    m.bids.remove(ix)
                };
                let o2 = if o.quantity > mq {
                    OrderV { actor: o.actor, ty: o.ty, price: o.price, quantity: (o.quantity - mq) as u128 }
                } else {
                    o
                };
                let asks2 = if o.quantity > mq {
                    insert_ask(m.asks, o2)
                } else {
                    m.asks
                };
                (
                    MarketV { asks: asks2, bids: bids2 },
                    Some(MatchV { bid_actor: c.actor, ask_actor: o.actor, quantity: mq, price: c.price }),
                    o2,
                )
            }
        },
        OrderType::Bid => {
            let ix = first_match_ix(m.asks, o);
            if ix == m.asks.len() {
                (MarketV { asks: m.asks, bids: insert_bid(m.bids, o) }, None::<MatchV>, o)
            } else {
                let c = m.asks[ix];
                let mq = if o.quantity <= c.quantity {
                    o.quantity
                } else {
                    c.quantity
                };
                let asks2 = if c.quantity > mq {
                    m.asks.update(
                        ix,
                        OrderV {
                            actor: c.actor,
                            ty: c.ty,
                            price: c.price,
                            quantity: (c.quantity - mq) as u128,
                        },
                    )
                } else {
                    m.asks.remove(ix)
                };
                let o2 = if o.quantity > mq {
                    OrderV { actor: o.actor, ty: o.ty, price: o.price, quantity: (o.quantity - mq) as u128 }
                } else {
                    o
                };
                let bids2 = if o.quantity > mq {
                    insert_bid(m.bids, o2)
                } else {
                    m.bids
                };
                (
                    MarketV { asks: asks2, bids: bids2 },
                    Some(MatchV { bid_actor: o.actor, ask_actor: c.actor, quantity: mq, price: c.price }),
                    o2,
                )
            }
        },
    }
}

/// An index that is unacceptable before and acceptable at is the first match.
proof fn lemma_first_match_ix_unique(s: Seq<OrderV>, incoming: OrderV, ix: int)
    requires
        0 <= ix <= s.len(),
        forall|j: int| 0 <= j < ix ==> !accepts(s[j].price, incoming),
        ix < s.len() ==> accepts(s[ix].price, incoming),
    ensures
        ix == first_match_ix(s, incoming),
{
    lemma_first_match_ix(s, incoming);
}

/// An index with prices `<= p` before it and `> p` at it is the ask insertion
/// point.
proof fn lemma_ask_insert_ix_unique(s: Seq<OrderV>, p: u64, ix: int)
    requires
        0 <= ix <= s.len(),
        forall|j: int| 0 <= j < ix ==> s[j].price <= p,
        ix < s.len() ==> s[ix].price > p,
    ensures
        ix == ask_insert_ix(s, p),
{
    lemma_ask_insert_ix(s, p);
}

/// An index with prices `>= p` before it and `< p` at it is the bid insertion
/// point.
proof fn lemma_bid_insert_ix_unique(s: Seq<OrderV>, p: u64, ix: int)
    requires
        0 <= ix <= s.len(),
        forall|j: int| 0 <= j < ix ==> s[j].price >= p,
        ix < s.len() ==> s[ix].price < p,
    ensures
        ix == bid_insert_ix(s, p),
{
    lemma_bid_insert_ix(s, p);
}

/// Finds the first resting order acceptable to the incoming one, or the list
/// length when none is.
pub(crate) fn find_first_match(orders: &Vec<Order>, price: u64, is_ask: bool, Ghost(ov): Ghost<OrderV>) -> (r:
    usize)
    requires
        ov.price == price,
        is_ask ==> ov.ty == OrderType::Ask,
        !is_ask ==> ov.ty == OrderType::Bid,
    ensures
        r == first_match_ix(orders.deep_view(), ov),
{
    let ghost s = orders.deep_view();
    let n = orders.len();
    let mut i: usize = 0;
    while i < n
        invariant
            n == orders.len(),
            s == orders.deep_view(),
            i <= n,
            ov.price == price,
            is_ask ==> ov.ty == OrderType::Ask,
            !is_ask ==> ov.ty == OrderType::Bid,
            forall|j: int| 0 <= j < i ==> !accepts(s[j].price, ov),
        decreases n - i,
    {
        let q = orders[i].order_price;
        assert(q == s[i as int].price);
        let ok = if is_ask {
            q >= price
        } else {
            q <= price
        };
        proof {
            assert(accepts(s[i as int].price, ov) == ok);
        }
        if ok {
            proof {
                lemma_first_match_ix_unique(s, ov, i as int);
            }
            return i;
        }
        i = i + 1;
    }
    proof {
        lemma_first_match_ix_unique(s, ov, n as int);
    }
    n
}

/// Puts an ask to rest in price order, after every ask at or below its price.
fn insert_ask_sorted(orders: &mut Vec<Order>, o: Order)
    ensures
        final(orders).deep_view() == insert_ask(old(orders).deep_view(), o@),
{
    let ghost s = orders.deep_view();
    let p = o.order_price;
    let n = orders.len();
    let mut i: usize = 0;
    let mut stop: bool = false;
    while !stop && i < n
        invariant
            n == orders.len(),
            s == orders.deep_view(),
            i <= n,
            forall|j: int| 0 <= j < i ==> s[j].price <= p,
            stop ==> i < n && s[i as int].price > p,
        decreases n - i + (if stop { 0int } else { 1 }),
    {
        if orders[i].order_price > p {
            stop = true;
        } else {
            assert(s[i as int].price <= p);
            i = i + 1;
        }
    }
    proof {
        lemma_ask_insert_ix_unique(s, p, i as int);
    }
    orders.insert(i, o);
    proof {
        assert(orders.deep_view() =~= insert_ask(s, o@));
    }
}

/// Puts a bid to rest in price order, after every bid at or above its price.
fn insert_bid_sorted(orders: &mut Vec<Order>, o: Order)
    ensures
        final(orders).deep_view() == insert_bid(old(orders).deep_view(), o@),
{
    let ghost s = orders.deep_view();
    let p = o.order_price;
    let n = orders.len();
    let mut i: usize = 0;
    let mut stop: bool = false;
    while !stop && i < n
        invariant
            n == orders.len(),
            s == orders.deep_view(),
            i <= n,
            forall|j: int| 0 <= j < i ==> s[j].price >= p,
            stop ==> i < n && s[i as int].price < p,
        decreases n - i + (if stop { 0int } else { 1 }),
    {
        if orders[i].order_price < p {
            stop = true;
        } else {
            assert(s[i as int].price >= p);
            i = i + 1;
        }
    }
    proof {
        lemma_bid_insert_ix_unique(s, p, i as int);
    }
    orders.insert(i, o);
    proof {
        assert(orders.deep_view() =~= insert_bid(s, o@));
    }
}

/// One matching step: scans the opposing side for the
/// first acceptable counter-order, settles at most one trade at the resting
/// order's price, and leaves any positive remainder of the incoming order
/// resting on its own side. Returns the bid actor, the ask actor, the matched
/// quantity and the matched price when a trade settles.
pub fn process_order(order: &mut Order, market: &mut Market) -> (r: Option<
    (String, String, u128, u64),
>)
    requires
        market_wf(old(market)@),
    ensures
        ({
            let (m2, mr, o2) = spec_process(old(order)@, old(market)@);
            &&& final(market)@ == m2
            &&& final(order)@ == o2
            &&& (match (r, mr) {
                (Some(t), Some(mv)) => t.0@ == mv.bid_actor && t.1@ == mv.ask_actor && t.2
                    == mv.quantity && t.3 == mv.price,
                (None, None) => true,
                _ => false,
            })
        }),
{
    let ghost m0 = market@;
    let ghost ov = order@;
    match order.order_type {
        OrderType::Ask => {
            let mi = find_first_match(&market.bid_orders, order.order_price, true, Ghost(ov));
            if mi == market.bid_orders.len() {
                let oc = order.clone();
                insert_ask_sorted(&mut market.ask_orders, oc);
                None
            } else {
                proof {
                    lemma_first_match_ix(m0.bids, ov);
                }
                let counter = market.bid_orders[mi].clone();
                assert(counter@ == m0.bids[mi as int]);
                let mq = if order.order_quantity <= counter.order_quantity {
                    order.order_quantity
                } else {
                    counter.order_quantity
                };
                if counter.order_quantity > mq {
                    let reduced = Order {
                        order_actor: counter.order_actor.clone(),
                        order_type: counter.order_type,
                        order_price: counter.order_price,
                        order_quantity: counter.order_quantity - mq,
                    };
                    market.bid_orders.remove(mi);
                    market.bid_orders.insert(mi, reduced);
                    proof {
                        assert(market.bid_orders.deep_view() =~= m0.bids.update(
                            mi as int,
                            spec_process(ov, m0).0.bids[mi as int],
                        ));
                    }
                } else {
                    market.bid_orders.remove(mi);
                    proof {
                        assert(market.bid_orders.deep_view() =~= m0.bids.remove(mi as int));
                    }
                }
                if order.order_quantity > mq {
                    order.order_quantity = order.order_quantity - mq;
                    let oc = order.clone();
                    insert_ask_sorted(&mut market.ask_orders, oc);
                }
                Some((counter.order_actor, order.order_actor.clone(), mq, counter.order_price))
            }
        },
        OrderType::Bid => {
            let mi = find_first_match(&market.ask_orders, order.order_price, false, Ghost(ov));
            if mi == market.ask_orders.len() {
                let oc = order.clone();
                insert_bid_sorted(&mut market.bid_orders, oc);
                None
            } else {
                proof {
                    lemma_first_match_ix(m0.asks, ov);
                }
                let counter = market.ask_orders[mi].clone();
                assert(counter@ == m0.asks[mi as int]);
                let mq = if order.order_quantity <= counter.order_quantity {
                    order.order_quantity
                } else {
                    counter.order_quantity
                };
                if counter.order_quantity > mq {
                    let reduced = Order {
                        order_actor: counter.order_actor.clone(),
                        order_type: counter.order_type,
                        order_price: counter.order_price,
                        order_quantity: counter.order_quantity - mq,
                    };
                    market.ask_orders.remove(mi);
                    market.ask_orders.insert(mi, reduced);
                    proof {
                        assert(market.ask_orders.deep_view() =~= m0.asks.update(
                            mi as int,
                            spec_process(ov, m0).0.asks[mi as int],
                        ));
                    }
                } else {
                    market.ask_orders.remove(mi);
                    proof {
                        assert(market.ask_orders.deep_view() =~= m0.asks.remove(mi as int));
                    }
                }
                if order.order_quantity > mq {
                    order.order_quantity = order.order_quantity - mq;
                    let oc = order.clone();
                    insert_bid_sorted(&mut market.bid_orders, oc);
                }
                Some((order.order_actor.clone(), counter.order_actor, mq, counter.order_price))
            }
        },
    }
}

/// Removing one order keeps either sort order and keeps quantities positive.
proof fn lemma_remove_keeps(s: Seq<OrderV>, ix: int)
    requires
        0 <= ix < s.len(),
    ensures
        asks_sorted(s) ==> asks_sorted(s.remove(ix)),
        bids_sorted(s) ==> bids_sorted(s.remove(ix)),
        all_qty_positive(s) ==> all_qty_positive(s.remove(ix)),
{
    let t = s.remove(ix);
    assert(t.len() == s.len() - 1);
    assert forall|k: int| 0 <= k < t.len() implies t[k] == (if k < ix {
        s[k]
    } else {
        s[k + 1]
    }) by {}
}

/// Replacing one order with one of the same price keeps either sort order.
proof fn lemma_update_keeps(s: Seq<OrderV>, ix: int, o: OrderV)
    requires
        0 <= ix < s.len(),
        o.price == s[ix].price,
    ensures
        asks_sorted(s) ==> asks_sorted(s.update(ix, o)),
        bids_sorted(s) ==> bids_sorted(s.update(ix, o)),
        all_qty_positive(s) && o.quantity > 0 ==> all_qty_positive(s.update(ix, o)),
{
}

/// Sorted insertion of a positive-quantity order keeps quantities positive.
proof fn lemma_insert_keeps_positive(s: Seq<OrderV>, ix: int, o: OrderV)
    requires
        0 <= ix <= s.len(),
        all_qty_positive(s),
        o.quantity > 0,
    ensures
        all_qty_positive(s.insert(ix, o)),
{
    let t = s.insert(ix, o);
    assert forall|k: int| 0 <= k < t.len() implies t[k].quantity > 0 by {
        if k < ix {
            assert(t[k] == s[k]);
        } else if k == ix {
            assert(t[k] == o);
        } else {
            assert(t[k] == s[k - 1]);
        }
    }
}

/// The matching step keeps a market well formed: both sides stay sorted and
/// no zero-quantity order is ever stored.
pub proof fn lemma_process_wf(o: OrderV, m: MarketV)
    requires
        market_wf(m),
        o.quantity > 0,
    ensures
        market_wf(spec_process(o, m).0),
{
    let (m2, mr, o2) = spec_process(o, m);
    match o.ty {
        OrderType::Ask => {
            let ix = first_match_ix(m.bids, o);
            lemma_first_match_ix(m.bids, o);
            if ix == m.bids.len() {
                lemma_insert_ask_sorted(m.asks, o);
                lemma_ask_insert_ix(m.asks, o.price);
                lemma_insert_keeps_positive(m.asks, ask_insert_ix(m.asks, o.price), o);
            } else {
                let c = m.bids[ix];
                let mq = if o.quantity <= c.quantity {
                    o.quantity
                } else {
                    c.quantity
                };
                if c.quantity > mq {
                    lemma_update_keeps(m.bids, ix, m2.bids[ix]);
                } else {
                    lemma_remove_keeps(m.bids, ix);
                }
                if o.quantity > mq {
                    lemma_insert_ask_sorted(m.asks, o2);
                    lemma_ask_insert_ix(m.asks, o2.price);
                    lemma_insert_keeps_positive(m.asks, ask_insert_ix(m.asks, o2.price), o2);
                }
            }
        },
        OrderType::Bid => {
            let ix = first_match_ix(m.asks, o);
            lemma_first_match_ix(m.asks, o);
            if ix == m.asks.len() {
                lemma_insert_bid_sorted(m.bids, o);
                lemma_bid_insert_ix(m.bids, o.price);
                lemma_insert_keeps_positive(m.bids, bid_insert_ix(m.bids, o.price), o);
            } else {
                let c = m.asks[ix];
                let mq = if o.quantity <= c.quantity {
                    o.quantity
                } else {
                    c.quantity
                };
                if c.quantity > mq {
                    lemma_update_keeps(m.asks, ix, m2.asks[ix]);
                } else {
                    lemma_remove_keeps(m.asks, ix);
                }
                if o.quantity > mq {
                    lemma_insert_bid_sorted(m.bids, o2);
                    lemma_bid_insert_ix(m.bids, o2.price);
                    lemma_insert_keeps_positive(m.bids, bid_insert_ix(m.bids, o2.price), o2);
                }
            }
        },
    }
}

/// What a full stable re-sort of an ask list yields: each order in turn comes
/// to rest after all earlier orders at or below its price.
pub open spec fn sort_asks(s: Seq<OrderV>) -> Seq<OrderV>
    decreases s.len(),
{
    if s.len() == 0 {
        Seq::empty()
    } else {
        insert_ask(sort_asks(s.drop_last()), s.last())
    }
}

/// What a full stable re-sort of a bid list yields.
pub open spec fn sort_bids(s: Seq<OrderV>) -> Seq<OrderV>
    decreases s.len(),
{
    if s.len() == 0 {
        Seq::empty()
    } else {
        insert_bid(sort_bids(s.drop_last()), s.last())
    }
}

impl Market {
    /// Restores the ask list to non-decreasing price order, keeping the
    /// relative order of asks at the same price.
    pub fn reorder_ask(&mut self)
        ensures
            final(self)@.asks == sort_asks(old(self)@.asks),
            final(self)@.bids == old(self)@.bids,
    {
        let ghost s0 = self@.asks;
        let mut sorted: Vec<Order> = Vec::new();
        let n = self.ask_orders.len();
        let mut i: usize = 0;
        while i < n
            invariant
                n == self.ask_orders.len(),
                s0 == self.ask_orders.deep_view(),
                i <= n,
                sorted.deep_view() == sort_asks(s0.take(i as int)),
            decreases n - i,
        {
            let o = self.ask_orders[i].clone();
            insert_ask_sorted(&mut sorted, o);
            proof {
                assert(s0.take(i + 1).drop_last() =~= s0.take(i as int));
                assert(s0.take(i + 1).last() == s0[i as int]);
            }
            i = i + 1;
        }
        proof {
            assert(s0.take(n as int) =~= s0);
        }
        self.ask_orders = sorted;
    }

    /// Restores the bid list to non-increasing price order, keeping the
    /// relative order of bids at the same price.
    pub fn reorder_bid(&mut self)
        ensures
            final(self)@.bids == sort_bids(old(self)@.bids),
            final(self)@.asks == old(self)@.asks,
    {
        let ghost s0 = self@.bids;
        let mut sorted: Vec<Order> = Vec::new();
        let n = self.bid_orders.len();
        let mut i: usize = 0;
        while i < n
            invariant
                n == self.bid_orders.len(),
                s0 == self.bid_orders.deep_view(),
                i <= n,
                sorted.deep_view() == sort_bids(s0.take(i as int)),
            decreases n - i,
        {
            let o = self.bid_orders[i].clone();
            insert_bid_sorted(&mut sorted, o);
            proof {
                assert(s0.take(i + 1).drop_last() =~= s0.take(i as int));
                assert(s0.take(i + 1).last() == s0[i as int]);
            }
            i = i + 1;
        }
        proof {
            assert(s0.take(n as int) =~= s0);
        }
        self.bid_orders = sorted;
    }
}


fn asks_ok(v: &Vec<Order>) -> (r: bool)
    ensures
        r == (asks_sorted(v.deep_view()) && all_qty_positive(v.deep_view())),
{
    let ghost s = v.deep_view();
    let n = v.len();
    let mut i: usize = 0;
    while i < n
        invariant
            n == v.len(),
            s == v.deep_view(),
            i <= n,
            asks_sorted(s.take(i as int)),
            all_qty_positive(s.take(i as int)),
        decreases n - i,
    {
        if v[i].order_quantity == 0 {
            proof {
                assert(s[i as int].quantity == 0);
            }
            return false;
        }
        if i > 0 && v[i - 1].order_price > v[i].order_price {
            proof {
                assert(s[i - 1].price > s[i as int].price);
            }
            return false;
        }
        proof {
            let t = s.take(i + 1);
            assert forall|x: int, y: int| 0 <= x < y < t.len() implies t[x].price
                <= t[y].price by {
                assert(t[x] == s[x]);
                assert(t[y] == s[y]);
                if y < i {
                    assert(s.take(i as int)[x] == s[x]);
                    assert(s.take(i as int)[y] == s[y]);
                } else {
                    if x < i - 1 {
                        assert(s.take(i as int)[x] == s[x]);
                        assert(s.take(i as int)[i - 1] == s[i - 1]);
                    }
                }
            }
            assert forall|x: int| 0 <= x < t.len() implies t[x].quantity > 0 by {
                assert(t[x] == s[x]);
                if x < i {
                    assert(s.take(i as int)[x] == s[x]);
                }
            }
        }
        i = i + 1;
    }
    proof {
        assert(s.take(n as int) =~= s);
    }
    true
}

fn bids_ok(v: &Vec<Order>) -> (r: bool)
    ensures
        r == (bids_sorted(v.deep_view()) && all_qty_positive(v.deep_view())),
{
    let ghost s = v.deep_view();
    let n = v.len();
    let mut i: usize = 0;
    while i < n
        invariant
            n == v.len(),
            s == v.deep_view(),
            i <= n,
            bids_sorted(s.take(i as int)),
            all_qty_positive(s.take(i as int)),
        decreases n - i,
    {
        if v[i].order_quantity == 0 {
            proof {
                assert(s[i as int].quantity == 0);
            }
            return false;
        }
        if i > 0 && v[i - 1].order_price < v[i].order_price {
            proof {
                assert(s[i - 1].price < s[i as int].price);
            }
            return false;
        }
        proof {
            let t = s.take(i + 1);
            assert forall|x: int, y: int| 0 <= x < y < t.len() implies t[x].price
                >= t[y].price by {
                assert(t[x] == s[x]);
                assert(t[y] == s[y]);
                if y < i {
                    assert(s.take(i as int)[x] == s[x]);
                    assert(s.take(i as int)[y] == s[y]);
                } else {
                    if x < i - 1 {
                        assert(s.take(i as int)[x] == s[x]);
                        assert(s.take(i as int)[i - 1] == s[i - 1]);
                    }
                }
            }
            assert forall|x: int| 0 <= x < t.len() implies t[x].quantity > 0 by {
                assert(t[x] == s[x]);
                if x < i {
                    assert(s.take(i as int)[x] == s[x]);
                }
            }
        }
        i = i + 1;
    }
    proof {
        assert(s.take(n as int) =~= s);
    }
    true
}

impl Market {
    /// Whether this market satisfies the book invariant: both sides sorted
    /// best price first, with only positive quantities resting.
    pub fn well_formed(&self) -> (r: bool)
        ensures
            r == market_wf(self@),
    {
        asks_ok(&self.ask_orders) && bids_ok(&self.bid_orders)
    }
}

} // verus!
