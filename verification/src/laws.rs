//! The engine's global guarantees, proved once over the state-transition
//! specifications: value conservation, well-formedness preservation, book
//! ordering, and the at-most-one-match shape of a matching step.
use vstd::prelude::*;

use crate::book::{
    asks_sorted, bids_sorted, first_match_ix, lemma_ask_insert_ix, lemma_bid_insert_ix,
    lemma_first_match_ix, lemma_process_wf, market_wf, spec_process, MarketV, OrderType, OrderV,
};
use crate::contract::{
    insert_order_fits, reserve_asset_of, reserve_of, spec_deposit, spec_insert_order,
};
use crate::state::{
    asset_amount, balance_of, has_key, key_ix, lemma_key_ix, lemma_set_balance, lemma_set_market,
    market_of, set_amount, set_balance, set_market, state_wf, StateV,
};

verus! {

/// The sum of a weight over an order list.
pub open spec fn sum_orders(s: Seq<OrderV>, w: spec_fn(OrderV) -> int) -> int
    decreases s.len(),
{
    if s.len() == 0 {
        0
    } else {
        w(s[0]) + sum_orders(s.drop_first(), w)
    }
}

/// The quantity an order holds of the market's asset.
pub open spec fn qty_weight() -> spec_fn(OrderV) -> int {
    |o: OrderV| o.quantity as int
}

/// The base-asset reserve a resting bid holds: its price times its quantity.
pub open spec fn reserve_weight() -> spec_fn(OrderV) -> int {
    |o: OrderV| (o.price as int) * (o.quantity as int)
}

proof fn lemma_sum_orders_update(s: Seq<OrderV>, i: int, e: OrderV, w: spec_fn(OrderV) -> int)
    requires
        0 <= i < s.len(),
    ensures
        sum_orders(s.update(i, e), w) == sum_orders(s, w) - w(s[i]) + w(e),
    decreases s.len(),
{
    if i == 0 {
        assert(s.update(0, e).drop_first() =~= s.drop_first());
    } else {
        assert(s.update(i, e).drop_first() =~= s.drop_first().update(i - 1, e));
        lemma_sum_orders_update(s.drop_first(), i - 1, e, w);
    }
}

proof fn lemma_sum_orders_remove(s: Seq<OrderV>, i: int, w: spec_fn(OrderV) -> int)
    requires
        0 <= i < s.len(),
    ensures
        sum_orders(s.remove(i), w) == sum_orders(s, w) - w(s[i]),
    decreases s.len(),
{
    if i == 0 {
        assert(s.remove(0) =~= s.drop_first());
    } else {
        assert(s.remove(i)[0] == s[0]);
        assert(s.remove(i).drop_first() =~= s.drop_first().remove(i - 1));
        lemma_sum_orders_remove(s.drop_first(), i - 1, w);
    }
}

proof fn lemma_sum_orders_insert(s: Seq<OrderV>, i: int, e: OrderV, w: spec_fn(OrderV) -> int)
    requires
        0 <= i <= s.len(),
    ensures
        sum_orders(s.insert(i, e), w) == sum_orders(s, w) + w(e),
    decreases s.len(),
{
    if i == 0 {
        assert(s.insert(0, e)[0] == e);
        assert(s.insert(0, e).drop_first() =~= s);
    } else {
        assert(s.insert(i, e)[0] == s[0]);
        assert(s.insert(i, e).drop_first() =~= s.drop_first().insert(i - 1, e));
        lemma_sum_orders_insert(s.drop_first(), i - 1, e, w);
    }
}

/// The sum over all identities of the balance held in one asset.
pub open spec fn sum_balances(
    bals: Seq<(Seq<char>, Seq<(Seq<char>, u128)>)>,
    asset: Seq<char>,
) -> int
    decreases bals.len(),
{
    if bals.len() == 0 {
        0
    } else {
        asset_amount(bals[0].1, asset) + sum_balances(bals.drop_first(), asset)
    }
}

proof fn lemma_sum_balances_update(
    s: Seq<(Seq<char>, Seq<(Seq<char>, u128)>)>,
    i: int,
    e: (Seq<char>, Seq<(Seq<char>, u128)>),
    asset: Seq<char>,
)
    requires
        0 <= i < s.len(),
    ensures
        sum_balances(s.update(i, e), asset) == sum_balances(s, asset) - asset_amount(s[i].1, asset)
            + asset_amount(e.1, asset),
    decreases s.len(),
{
    if i == 0 {
        assert(s.update(0, e).drop_first() =~= s.drop_first());
    } else {
        assert(s.update(i, e).drop_first() =~= s.drop_first().update(i - 1, e));
        lemma_sum_balances_update(s.drop_first(), i - 1, e, asset);
    }
}

proof fn lemma_sum_balances_push(
    s: Seq<(Seq<char>, Seq<(Seq<char>, u128)>)>,
    e: (Seq<char>, Seq<(Seq<char>, u128)>),
    asset: Seq<char>,
)
    ensures
        sum_balances(s.push(e), asset) == sum_balances(s, asset) + asset_amount(e.1, asset),
    decreases s.len(),
{
    if s.len() == 0 {
        assert(s.push(e)[0] == e);
        assert(s.push(e).drop_first() =~= Seq::<(Seq<char>, Seq<(Seq<char>, u128)>)>::empty());
        assert(sum_balances(Seq::<(Seq<char>, Seq<(Seq<char>, u128)>)>::empty(), asset) == 0);
    } else {
        assert(s.push(e)[0] == s[0]);
        assert(s.push(e).drop_first() =~= s.drop_first().push(e));
        lemma_sum_balances_push(s.drop_first(), e, asset);
    }
}

/// Writing one identity's balance for one asset moves the summed total of
/// that asset by exactly the difference, and moves no other asset's total.
proof fn lemma_sum_balances_set(st: StateV, id: Seq<char>, a0: Seq<char>, v: u128, a: Seq<char>)
    ensures
        sum_balances(set_balance(st, id, a0, v).balances, a) == sum_balances(st.balances, a) + (
        if a == a0 {
            v - balance_of(st, id, a0)
        } else {
            0
        }),
{
    let inner = if has_key(st.balances, id) {
        st.balances[key_ix(st.balances, id)].1
    } else {
        Seq::empty()
    };
    let inner2 = set_amount(inner, a0, v);
    lemma_key_ix(st.balances, id);
    lemma_key_ix(inner, a0);
    lemma_key_ix(inner, a);
    lemma_assoc_amounts(inner, a0, v, a);
    if has_key(st.balances, id) {
        lemma_sum_balances_update(st.balances, key_ix(st.balances, id), (id, inner2), a);
    } else {
        lemma_sum_balances_push(st.balances, (id, inner2), a);
    }
}

/// Setting one asset's amount in an entry list reads back as written and
/// leaves every other asset's amount alone.
proof fn lemma_assoc_amounts(inner: Seq<(Seq<char>, u128)>, a0: Seq<char>, v: u128, a: Seq<char>)
    ensures
        asset_amount(set_amount(inner, a0, v), a) == (if a == a0 {
            v
        } else {
            asset_amount(inner, a)
        }),
{
    let inner2 = set_amount(inner, a0, v);
    lemma_key_ix(inner, a0);
    lemma_key_ix(inner, a);
    crate::state::lemma_assoc_set(inner, a0, v);
    if a != a0 {
        if has_key(inner, a) {
            assert(inner2[key_ix(inner, a)] == inner[key_ix(inner, a)]);
        } else {
            assert(!has_key(inner2, a));
        }
    }
}

/// The base-asset value resting in every market's bid list.
pub open spec fn book_reserve(ms: Seq<(Seq<char>, MarketV)>) -> int
    decreases ms.len(),
{
    if ms.len() == 0 {
        0
    } else {
        sum_orders(ms[0].1.bids, reserve_weight()) + book_reserve(ms.drop_first())
    }
}

proof fn lemma_book_reserve_update(ms: Seq<(Seq<char>, MarketV)>, i: int, e: (Seq<char>, MarketV))
    requires
        0 <= i < ms.len(),
    ensures
        book_reserve(ms.update(i, e)) == book_reserve(ms) - sum_orders(
            ms[i].1.bids,
            reserve_weight(),
        ) + sum_orders(e.1.bids, reserve_weight()),
    decreases ms.len(),
{
    if i == 0 {
        assert(ms.update(0, e).drop_first() =~= ms.drop_first());
    } else {
        assert(ms.update(i, e).drop_first() =~= ms.drop_first().update(i - 1, e));
        lemma_book_reserve_update(ms.drop_first(), i - 1, e);
    }
}

proof fn lemma_book_reserve_push(ms: Seq<(Seq<char>, MarketV)>, e: (Seq<char>, MarketV))
    ensures
        book_reserve(ms.push(e)) == book_reserve(ms) + sum_orders(e.1.bids, reserve_weight()),
    decreases ms.len(),
{
    if ms.len() == 0 {
        assert(ms.push(e)[0] == e);
        assert(ms.push(e).drop_first() =~= Seq::<(Seq<char>, MarketV)>::empty());
        assert(book_reserve(Seq::<(Seq<char>, MarketV)>::empty()) == 0);
    } else {
        assert(ms.push(e)[0] == ms[0]);
        assert(ms.push(e).drop_first() =~= ms.drop_first().push(e));
        lemma_book_reserve_push(ms.drop_first(), e);
    }
}

/// Replacing one market moves the book-wide bid reserve by the difference of
/// that market's bid reserves.
proof fn lemma_book_reserve_set(st: StateV, name: Seq<char>, m: MarketV)
    ensures
        book_reserve(set_market(st, name, m).markets) == book_reserve(st.markets) - sum_orders(
            market_of(st, name).bids,
            reserve_weight(),
        ) + sum_orders(m.bids, reserve_weight()),
{
    lemma_key_ix(st.markets, name);
    if has_key(st.markets, name) {
        lemma_book_reserve_update(st.markets, key_ix(st.markets, name), (name, m));
    } else {
        lemma_book_reserve_push(st.markets, (name, m));
        assert(sum_orders(market_of(st, name).bids, reserve_weight()) == 0);
    }
}

/// The whole value of one asset anywhere in the system: balances, plus the
/// quantity resting in its own market's asks, plus (for the base asset) the
/// reserve resting in every market's bids.
pub open spec fn asset_total(st: StateV, asset: Seq<char>) -> int {
    sum_balances(st.balances, asset) + sum_orders(market_of(st, asset).asks, qty_weight()) + (
    if asset == st.base {
        book_reserve(st.markets)
    } else {
        0
    })
}

/// How one matching step moves the two sums the ledger cares about: the
/// quantity resting in asks and the base-asset reserve resting in bids.
proof fn lemma_process_sums(o: OrderV, m: MarketV)
    requires
        market_wf(m),
    ensures
        ({
            let (m2, mr, o2) = spec_process(o, m);
            match mr {
                None => {
                    &&& (o.ty == OrderType::Ask ==> sum_orders(m2.asks, qty_weight())
                        == sum_orders(m.asks, qty_weight()) + o.quantity && m2.bids == m.bids)
                    &&& (o.ty == OrderType::Bid ==> sum_orders(m2.bids, reserve_weight())
                        == sum_orders(m.bids, reserve_weight()) + (o.price as int) * (
                    o.quantity as int) && m2.asks == m.asks)
                },
                Some(mv) => {
                    &&& mv.quantity <= o.quantity
                    &&& (o.ty == OrderType::Ask ==> {
                        &&& sum_orders(m2.asks, qty_weight()) == sum_orders(m.asks, qty_weight())
                            + o.quantity - mv.quantity
                        &&& sum_orders(m2.bids, reserve_weight()) == sum_orders(
                            m.bids,
                            reserve_weight(),
                        ) - (mv.price as int) * (mv.quantity as int)
                        &&& mv.price >= o.price
                    })
                    &&& (o.ty == OrderType::Bid ==> {
                        &&& sum_orders(m2.asks, qty_weight()) == sum_orders(m.asks, qty_weight())
                            - mv.quantity
                        &&& sum_orders(m2.bids, reserve_weight()) == sum_orders(
                            m.bids,
                            reserve_weight(),
                        ) + (o.price as int) * (o.quantity as int) - (o.price as int) * (
                        mv.quantity as int)
                        &&& mv.price <= o.price
                    })
                },
            }
        }),
{
    let (m2, mr, o2) = spec_process(o, m);
    match o.ty {
        OrderType::Ask => {
            let ix = first_match_ix(m.bids, o);
            lemma_first_match_ix(m.bids, o);
            if ix == m.bids.len() {
                lemma_ask_insert_ix(m.asks, o.price);
                lemma_sum_orders_insert(
                    m.asks,
                    crate::book::ask_insert_ix(m.asks, o.price),
                    o,
                    qty_weight(),
                );
            } else {
                let c = m.bids[ix];
                let mq: u128 = if o.quantity <= c.quantity {
                    o.quantity
                } else {
                    c.quantity
                };
                if c.quantity > mq {
                    let e = OrderV {
                        actor: c.actor,
                        ty: c.ty,
                        price: c.price,
                        quantity: (c.quantity - mq) as u128,
                    };
                    lemma_sum_orders_update(m.bids, ix, e, reserve_weight());
                    assert((c.price as int) * ((c.quantity - mq) as int) == (c.price as int) * (
                    c.quantity as int) - (c.price as int) * (mq as int)) by (nonlinear_arith);
                } else {
                    lemma_sum_orders_remove(m.bids, ix, reserve_weight());
                }
                if o.quantity > mq {
                    lemma_ask_insert_ix(m.asks, o2.price);
                    lemma_sum_orders_insert(
                        m.asks,
                        crate::book::ask_insert_ix(m.asks, o2.price),
                        o2,
                        qty_weight(),
                    );
                }
            }
        },
        OrderType::Bid => {
            let ix = first_match_ix(m.asks, o);
            lemma_first_match_ix(m.asks, o);
            if ix == m.asks.len() {
                lemma_bid_insert_ix(m.bids, o.price);
                lemma_sum_orders_insert(
                    m.bids,
                    crate::book::bid_insert_ix(m.bids, o.price),
                    o,
                    reserve_weight(),
                );
            } else {
                let c = m.asks[ix];
                let mq: u128 = if o.quantity <= c.quantity {
                    o.quantity
                } else {
                    c.quantity
                };
                if c.quantity > mq {
                    let e = OrderV {
                        actor: c.actor,
                        ty: c.ty,
                        price: c.price,
                        quantity: (c.quantity - mq) as u128,
                    };
                    lemma_sum_orders_update(m.asks, ix, e, qty_weight());
                } else {
                    lemma_sum_orders_remove(m.asks, ix, qty_weight());
                }
                if o.quantity > mq {
                    lemma_bid_insert_ix(m.bids, o2.price);
                    lemma_sum_orders_insert(
                        m.bids,
                        crate::book::bid_insert_ix(m.bids, o2.price),
                        o2,
                        reserve_weight(),
                    );
                    assert((o.price as int) * ((o.quantity - mq) as int) == (o.price as int) * (
                    o.quantity as int) - (o.price as int) * (mq as int)) by (nonlinear_arith);
                }
            }
        },
    }
}

/// Conservation across a deposit: the deposited asset's system-wide total
/// grows by exactly the transferred amount, and every other asset's total is
/// untouched.
pub proof fn law_conservation_deposit(
    st: StateV,
    id: Seq<char>,
    token: Seq<char>,
    amount: u128,
    a: Seq<char>,
)
    requires
        state_wf(st),
        balance_of(st, id, token) + amount <= u128::MAX,
    ensures
        asset_total(spec_deposit(st, id, token, amount), a) == asset_total(st, a) + (if a == token {
            amount as int
        } else {
            0
        }),
{
    let st2 = spec_deposit(st, id, token, amount);
    lemma_set_balance(st, id, token, (balance_of(st, id, token) + amount) as u128);
    lemma_sum_balances_set(st, id, token, (balance_of(st, id, token) + amount) as u128, a);
    assert(st2.markets == st.markets);
    assert(market_of(st2, a) == market_of(st, a));
}

/// Conservation across an order insertion: for every asset, the system-wide
/// total is unchanged. The reserve debited from the caller reappears as the
/// resting order's book value and, on a trade, as the counterparties'
/// settlement credits — with a bid settling below its limit refunded the
/// difference — so no value is created or destroyed. A rejected order
/// changes nothing.
pub proof fn law_conservation_insert(
    st: StateV,
    id: Seq<char>,
    o: OrderV,
    name: Seq<char>,
    a: Seq<char>,
)
    requires
        state_wf(st),
        o.quantity > 0,
        insert_order_fits(st, id, o, name),
    ensures
        asset_total(spec_insert_order(st, id, o, name).0, a) == asset_total(st, a),
{
    let ra = reserve_asset_of(st, o, name);
    let res = reserve_of(o);
    if (balance_of(st, id, ra) as int) < res {
    } else {
        let st1 = set_balance(st, id, ra, (balance_of(st, id, ra) as int - res) as u128);
        let m = market_of(st1, name);
        let pr = spec_process(o, m);
        let st2 = set_market(st1, name, pr.0);
        lemma_set_balance(st, id, ra, (balance_of(st, id, ra) as int - res) as u128);
        lemma_sum_balances_set(st, id, ra, (balance_of(st, id, ra) as int - res) as u128, a);
        assert(market_of(st1, name) == market_of(st, name));
        assert(market_of(st1, a) == market_of(st, a));
        assert(book_reserve(st1.markets) == book_reserve(st.markets));
        lemma_key_ix(st1.markets, name);
        assert(market_wf(m));
        lemma_process_sums(o, m);
        lemma_process_wf(o, m);
        lemma_set_market(st1, name, pr.0);
        lemma_book_reserve_set(st1, name, pr.0);
        lemma_sum_balances_set_preserves_markets(st1, name, pr.0, a);
        match pr.1 {
            None => {
            },
            Some(mv) => {
                let amt = (mv.quantity as int) * (mv.price as int);
                let st3 = set_balance(
                    st2,
                    mv.ask_actor,
                    st.base,
                    (balance_of(st2, mv.ask_actor, st.base) + amt) as u128,
                );
                lemma_set_balance(
                    st2,
                    mv.ask_actor,
                    st.base,
                    (balance_of(st2, mv.ask_actor, st.base) + amt) as u128,
                );
                lemma_sum_balances_set(
                    st2,
                    mv.ask_actor,
                    st.base,
                    (balance_of(st2, mv.ask_actor, st.base) + amt) as u128,
                    a,
                );
                let st4 = set_balance(
                    st3,
                    mv.bid_actor,
                    name,
                    (balance_of(st3, mv.bid_actor, name) + mv.quantity) as u128,
                );
                lemma_set_balance(
                    st3,
                    mv.bid_actor,
                    name,
                    (balance_of(st3, mv.bid_actor, name) + mv.quantity) as u128,
                );
                lemma_sum_balances_set(
                    st3,
                    mv.bid_actor,
                    name,
                    (balance_of(st3, mv.bid_actor, name) + mv.quantity) as u128,
                    a,
                );
                assert(market_of(st3, a) == market_of(st2, a));
                assert(market_of(st4, a) == market_of(st3, a));
                assert(book_reserve(st3.markets) == book_reserve(st2.markets));
                assert(book_reserve(st4.markets) == book_reserve(st3.markets));
                if o.ty == OrderType::Bid && o.price > mv.price {
                    let refund = (mv.quantity as int) * ((o.price - mv.price) as int);
                    lemma_set_balance(
                        st4,
                        mv.bid_actor,
                        st.base,
                        (balance_of(st4, mv.bid_actor, st.base) + refund) as u128,
                    );
                    lemma_sum_balances_set(
                        st4,
                        mv.bid_actor,
                        st.base,
                        (balance_of(st4, mv.bid_actor, st.base) + refund) as u128,
                        a,
                    );
                    let st5 = set_balance(
                        st4,
                        mv.bid_actor,
                        st.base,
                        (balance_of(st4, mv.bid_actor, st.base) + refund) as u128,
                    );
                    assert(market_of(st5, a) == market_of(st4, a));
                    assert(book_reserve(st5.markets) == book_reserve(st4.markets));
                    assert((mv.quantity as int) * ((o.price as int) - (mv.price as int)) == (
                    mv.quantity as int) * (o.price as int) - (mv.quantity as int) * (
                    mv.price as int)) by (nonlinear_arith);
                    assert(((o.price - mv.price) as int) == (o.price as int) - (
                    mv.price as int));
                }
                if o.ty == OrderType::Bid {
                    assert((o.price as int) * (mv.quantity as int) == (mv.quantity as int) * (
                    o.price as int)) by (nonlinear_arith);
                }
            },
        }
    }
}

/// A balance write never touches the markets, so neither market lookups nor
/// the book-wide reserve move.
proof fn lemma_sum_balances_set_preserves_markets(
    st: StateV,
    name: Seq<char>,
    m: MarketV,
    a: Seq<char>,
)
    ensures
        set_market(st, name, m).balances == st.balances,
        sum_balances(set_market(st, name, m).balances, a) == sum_balances(st.balances, a),
{
}

/// Every balance entry is non-negative: balances are held in an unsigned
/// type, and the debit primitive demands sufficiency, so no reachable state
/// ever records a negative amount.
pub proof fn law_no_negative_balances(st: StateV, id: Seq<char>, asset: Seq<char>)
    ensures
        balance_of(st, id, asset) >= 0,
{
}

/// An accepted or rejected order insertion keeps the state well formed:
/// distinct keys everywhere, and every market's books sorted with positive
/// quantities only.
pub proof fn law_insert_preserves_wf(st: StateV, id: Seq<char>, o: OrderV, name: Seq<char>)
    requires
        state_wf(st),
        o.quantity > 0,
        insert_order_fits(st, id, o, name),
    ensures
        state_wf(spec_insert_order(st, id, o, name).0),
{
    let ra = reserve_asset_of(st, o, name);
    let res = reserve_of(o);
    if (balance_of(st, id, ra) as int) < res {
    } else {
        let st1 = set_balance(st, id, ra, (balance_of(st, id, ra) as int - res) as u128);
        let m = market_of(st1, name);
        let pr = spec_process(o, m);
        let st2 = set_market(st1, name, pr.0);
        lemma_set_balance(st, id, ra, (balance_of(st, id, ra) as int - res) as u128);
        lemma_key_ix(st1.markets, name);
        lemma_process_wf(o, m);
        lemma_set_market(st1, name, pr.0);
        match pr.1 {
            None => {
            },
            Some(mv) => {
                let amt = (mv.quantity as int) * (mv.price as int);
                let st3 = set_balance(
                    st2,
                    mv.ask_actor,
                    st.base,
                    (balance_of(st2, mv.ask_actor, st.base) + amt) as u128,
                );
                lemma_set_balance(
                    st2,
                    mv.ask_actor,
                    st.base,
                    (balance_of(st2, mv.ask_actor, st.base) + amt) as u128,
                );
                let st4 = set_balance(
                    st3,
                    mv.bid_actor,
                    name,
                    (balance_of(st3, mv.bid_actor, name) + mv.quantity) as u128,
                );
                lemma_set_balance(
                    st3,
                    mv.bid_actor,
                    name,
                    (balance_of(st3, mv.bid_actor, name) + mv.quantity) as u128,
                );
                if o.ty == OrderType::Bid && o.price > mv.price {
                    let refund = (mv.quantity as int) * ((o.price - mv.price) as int);
                    lemma_set_balance(
                        st4,
                        mv.bid_actor,
                        st.base,
                        (balance_of(st4, mv.bid_actor, st.base) + refund) as u128,
                    );
                }
            },
        }
    }
}

/// After any accepted order insertion, every market's ask list is
/// non-decreasing by price and its bid list is non-increasing by price.
pub proof fn law_book_ordering(st: StateV, id: Seq<char>, o: OrderV, name: Seq<char>, n: Seq<char>)
    requires
        state_wf(st),
        o.quantity > 0,
        insert_order_fits(st, id, o, name),
    ensures
        asks_sorted(market_of(spec_insert_order(st, id, o, name).0, n).asks),
        bids_sorted(market_of(spec_insert_order(st, id, o, name).0, n).bids),
{
    law_insert_preserves_wf(st, id, o, name);
    let st2 = spec_insert_order(st, id, o, name).0;
    lemma_key_ix(st2.markets, n);
}

/// One matching step touches at most one resting counter-order — removed
/// whole or reduced in place — and adds at most one new resting order, the
/// incoming order's remainder, to the other side. Nothing else in the market
/// moves.
pub proof fn law_at_most_one_match(o: OrderV, m: MarketV)
    requires
        market_wf(m),
        o.quantity > 0,
    ensures
        ({
            let (m2, mr, o2) = spec_process(o, m);
            &&& (m2.asks == m.asks || (exists|i: int, e: OrderV|
                0 <= i <= m.asks.len() && m2.asks == m.asks.insert(i, e)) || (exists|i: int|
                0 <= i < m.asks.len() && m2.asks == m.asks.remove(i)) || (exists|i: int, e: OrderV|
                0 <= i < m.asks.len() && e.quantity < m.asks[i].quantity && m2.asks
                    == m.asks.update(i, e)))
            &&& (m2.bids == m.bids || (exists|i: int, e: OrderV|
                0 <= i <= m.bids.len() && m2.bids == m.bids.insert(i, e)) || (exists|i: int|
                0 <= i < m.bids.len() && m2.bids == m.bids.remove(i)) || (exists|i: int, e: OrderV|
                0 <= i < m.bids.len() && e.quantity < m.bids[i].quantity && m2.bids
                    == m.bids.update(i, e)))
        }),
{
    let (m2, mr, o2) = spec_process(o, m);
    match o.ty {
        OrderType::Ask => {
            let ix = first_match_ix(m.bids, o);
            lemma_first_match_ix(m.bids, o);
            if ix == m.bids.len() {
                lemma_ask_insert_ix(m.asks, o.price);
                let i = crate::book::ask_insert_ix(m.asks, o.price);
                assert(m2.asks == m.asks.insert(i, o));
            } else {
                let c = m.bids[ix];
                let mq: u128 = if o.quantity <= c.quantity {
                    o.quantity
                } else {
                    c.quantity
                };
                if c.quantity > mq {
                    let e = OrderV {
                        actor: c.actor,
                        ty: c.ty,
                        price: c.price,
                        quantity: (c.quantity - mq) as u128,
                    };
                    assert(0 <= ix < m.bids.len() && e.quantity < m.bids[ix].quantity && m2.bids
                        == m.bids.update(ix, e));
                } else {
                    assert(m2.bids == m.bids.remove(ix));
                }
                if o.quantity > mq {
                    lemma_ask_insert_ix(m.asks, o2.price);
                    let i = crate::book::ask_insert_ix(m.asks, o2.price);
                    assert(m2.asks == m.asks.insert(i, o2));
                }
            }
        },
        OrderType::Bid => {
            let ix = first_match_ix(m.asks, o);
            lemma_first_match_ix(m.asks, o);
            if ix == m.asks.len() {
                lemma_bid_insert_ix(m.bids, o.price);
                let i = crate::book::bid_insert_ix(m.bids, o.price);
                assert(m2.bids == m.bids.insert(i, o));
            } else {
                let c = m.asks[ix];
                let mq: u128 = if o.quantity <= c.quantity {
                    o.quantity
                } else {
                    c.quantity
                };
                if c.quantity > mq {
                    let e = OrderV {
                        actor: c.actor,
                        ty: c.ty,
                        price: c.price,
                        quantity: (c.quantity - mq) as u128,
                    };
                    assert(0 <= ix < m.asks.len() && e.quantity < m.asks[ix].quantity && m2.asks
                        == m.asks.update(ix, e));
                } else {
                    assert(m2.asks == m.asks.remove(ix));
                }
                if o.quantity > mq {
                    lemma_bid_insert_ix(m.bids, o2.price);
                    let i = crate::book::bid_insert_ix(m.bids, o2.price);
                    assert(m2.bids == m.bids.insert(i, o2));
                }
            }
        },
    }
}

} // verus!
