use orderbook::{
    Market, Order, OrderBookAction, OrderBookContract, OrderBookState, OrderType, TokenAction,
};

fn s(t: &str) -> String {
    String::from(t)
}

fn contract(base: &str) -> OrderBookContract {
    OrderBookContract::new(s("alice"), s("book"), OrderBookState::new(s(base)))
}

fn deposit(c: &mut OrderBookContract, who: &str, token: &str, amount: u128) {
    let state = std::mem::replace(&mut c.state, OrderBookState::new(s("USD")));
    let mut helper = OrderBookContract::new(s(who), s("book"), state);
    let r = helper.deposit_asset(
        TokenAction::Transfer { recipient: s("book"), amount },
        s(token),
    );
    assert!(r.is_ok());
    c.state = helper.state;
}

fn insert(
    c: &mut OrderBookContract,
    who: &str,
    ty: OrderType,
    asset: &str,
    price: u64,
    qty: u128,
) -> Result<String, String> {
    let state = std::mem::replace(&mut c.state, OrderBookState::new(s("USD")));
    let mut helper = OrderBookContract::new(s(who), s("book"), state);
    let order = Order {
        order_actor: s(who),
        order_type: ty,
        order_price: price,
        order_quantity: qty,
    };
    let r = helper.insert_order(order, s(asset));
    c.state = helper.state;
    r
}

fn market<'a>(st: &'a OrderBookState, name: &str) -> Option<&'a Market> {
    st.markets.iter().find(|e| e.0 == name).map(|e| &e.1)
}

#[test]
fn deposit_success_credits_balance() {
    let mut c = contract("USD");
    let r = c.deposit_asset(
        TokenAction::Transfer { recipient: s("book"), amount: 100 },
        s("USD"),
    );
    assert_eq!(r, Ok(s("Deposit success for alice - USD")));
    assert_eq!(c.state.balance(&s("alice"), &s("USD")), 100);
}

#[test]
fn deposit_wrong_recipient_is_rejected() {
    let mut c = contract("USD");
    let r = c.deposit_asset(
        TokenAction::Transfer { recipient: s("someone_else"), amount: 100 },
        s("USD"),
    );
    assert_eq!(
        r,
        Err(s("Transfer recipient should be book but was someone_else"))
    );
    assert_eq!(c.state.balance(&s("alice"), &s("USD")), 0);
    assert!(c.state.balances.is_empty());
}

#[test]
fn deposit_non_transfer_action_is_rejected() {
    let mut c = contract("USD");
    let r = c.deposit_asset(TokenAction::Approve { spender: s("book"), amount: 5 }, s("USD"));
    assert_eq!(r, Err(s("Unsupported token action")));
    assert!(c.state.balances.is_empty());
}

#[test]
fn missing_balance_reads_as_zero() {
    let st = OrderBookState::new(s("USD"));
    assert_eq!(st.balance(&s("nobody"), &s("USD")), 0);
}

#[test]
fn scenario_a_insufficient_balance() {
    // alice holds less than the bid's reserve of round(5) * 10 = 50.
    let mut c = contract("USD");
    deposit(&mut c, "alice", "USD", 40);
    let r = insert(&mut c, "alice", OrderType::Bid, "TOK", 5, 10);
    assert_eq!(r, Err(s("Insufficient balance for alice - TOK")));
    assert_eq!(c.state.balance(&s("alice"), &s("USD")), 40);
    assert!(market(&c.state, "TOK").is_none());
}

#[test]
fn scenario_a_resting_bid() {
    let mut c = contract("USD");
    deposit(&mut c, "alice", "USD", 100);
    let r = insert(&mut c, "alice", OrderType::Bid, "TOK", 5, 10);
    assert_eq!(r, Ok(s("Order inserted successfully for alice - TOK")));
    assert_eq!(c.state.balance(&s("alice"), &s("USD")), 50);
    let m = market(&c.state, "TOK").unwrap();
    assert!(m.ask_orders.is_empty());
    assert_eq!(m.bid_orders.len(), 1);
    assert_eq!(m.bid_orders[0].order_actor, s("alice"));
    assert_eq!(m.bid_orders[0].order_price, 5);
    assert_eq!(m.bid_orders[0].order_quantity, 10);
}

#[test]
fn scenario_b_full_match_at_resting_price() {
    let mut c = contract("USD");
    deposit(&mut c, "alice", "USD", 100);
    insert(&mut c, "alice", OrderType::Bid, "TOK", 5, 10).unwrap();
    deposit(&mut c, "bob", "TOK", 20);
    let r = insert(&mut c, "bob", OrderType::Ask, "TOK", 4, 10);
    assert!(r.is_ok());
    // The trade settles at the resting bid's price 5 with quantity 10 and
    // the bid is fully consumed and removed: bob (the ask side) receives
    // 10 * 5 of the base asset, alice (the bid side) receives the 10 TOK.
    let m = market(&c.state, "TOK").unwrap();
    assert!(m.bid_orders.is_empty());
    assert!(m.ask_orders.is_empty());
    assert_eq!(c.state.balance(&s("bob"), &s("TOK")), 10);
    assert_eq!(c.state.balance(&s("bob"), &s("USD")), 50);
    assert_eq!(c.state.balance(&s("alice"), &s("TOK")), 10);
    assert_eq!(c.state.balance(&s("alice"), &s("USD")), 50);
}

#[test]
fn scenario_c_remainder_rests_after_single_match() {
    let mut c = contract("USD");
    deposit(&mut c, "alice", "USD", 50);
    insert(&mut c, "alice", OrderType::Bid, "TOK", 5, 10).unwrap();
    deposit(&mut c, "bob", "TOK", 15);
    let r = insert(&mut c, "bob", OrderType::Ask, "TOK", 4, 15);
    assert!(r.is_ok());
    // One match consumes the whole resting bid; the ask's remaining 5 rests
    // rather than sweeping for further liquidity.
    let m = market(&c.state, "TOK").unwrap();
    assert!(m.bid_orders.is_empty());
    assert_eq!(m.ask_orders.len(), 1);
    assert_eq!(m.ask_orders[0].order_actor, s("bob"));
    assert_eq!(m.ask_orders[0].order_price, 4);
    assert_eq!(m.ask_orders[0].order_quantity, 5);
    assert_eq!(c.state.balance(&s("bob"), &s("TOK")), 0);
    assert_eq!(c.state.balance(&s("bob"), &s("USD")), 50);
    assert_eq!(c.state.balance(&s("alice"), &s("TOK")), 10);
    assert_eq!(c.state.balance(&s("alice"), &s("USD")), 0);
}

#[test]
fn partial_fill_reduces_counter_in_place() {
    let mut c = contract("USD");
    deposit(&mut c, "alice", "USD", 100);
    insert(&mut c, "alice", OrderType::Bid, "TOK", 5, 10).unwrap();
    deposit(&mut c, "bob", "TOK", 4);
    insert(&mut c, "bob", OrderType::Ask, "TOK", 5, 4).unwrap();
    let m = market(&c.state, "TOK").unwrap();
    assert_eq!(m.bid_orders.len(), 1);
    assert_eq!(m.bid_orders[0].order_quantity, 6);
    assert!(m.ask_orders.is_empty());
}

#[test]
fn first_fit_is_best_price_on_sorted_book() {
    let mut c = contract("USD");
    deposit(&mut c, "alice", "USD", 1000);
    insert(&mut c, "alice", OrderType::Bid, "TOK", 3, 5).unwrap();
    insert(&mut c, "alice", OrderType::Bid, "TOK", 7, 5).unwrap();
    let m = market(&c.state, "TOK").unwrap();
    // Bids rest best price first.
    assert_eq!(m.bid_orders[0].order_price, 7);
    assert_eq!(m.bid_orders[1].order_price, 3);
    deposit(&mut c, "bob", "TOK", 5);
    insert(&mut c, "bob", OrderType::Ask, "TOK", 2, 5).unwrap();
    // The ask matches the best (highest) bid, price 7: bob is paid 5 * 7 of
    // the base asset and alice receives the 5 TOK.
    let m = market(&c.state, "TOK").unwrap();
    assert_eq!(m.bid_orders.len(), 1);
    assert_eq!(m.bid_orders[0].order_price, 3);
    assert_eq!(c.state.balance(&s("bob"), &s("USD")), 35);
    assert_eq!(c.state.balance(&s("alice"), &s("TOK")), 5);
    assert_eq!(c.state.balance(&s("alice"), &s("USD")), 1000 - 15 - 35);
}

#[test]
fn reorder_restores_price_order() {
    let mk = |p: u64, q: u128| Order {
        order_actor: s("x"),
        order_type: OrderType::Ask,
        order_price: p,
        order_quantity: q,
    };
    let mut m = Market {
        ask_orders: vec![mk(9, 1), mk(2, 2), mk(5, 3), mk(2, 4)],
        bid_orders: vec![mk(1, 1), mk(8, 2), mk(5, 3)],
    };
    m.reorder_ask();
    let asks: Vec<u64> = m.ask_orders.iter().map(|o| o.order_price).collect();
    assert_eq!(asks, vec![2, 2, 5, 9]);
    // Stable: the earlier ask at price 2 keeps its priority.
    assert_eq!(m.ask_orders[0].order_quantity, 2);
    assert_eq!(m.ask_orders[1].order_quantity, 4);
    m.reorder_bid();
    let bids: Vec<u64> = m.bid_orders.iter().map(|o| o.order_price).collect();
    assert_eq!(bids, vec![8, 5, 1]);
}

#[test]
fn process_order_reports_the_match() {
    let mut m = Market {
        ask_orders: vec![],
        bid_orders: vec![Order {
            order_actor: s("alice"),
            order_type: OrderType::Bid,
            order_price: 5,
            order_quantity: 10,
        }],
    };
    let mut o = Order {
        order_actor: s("bob"),
        order_type: OrderType::Ask,
        order_price: 4,
        order_quantity: 10,
    };
    let r = orderbook::book::process_order(&mut o, &mut m);
    let (bid_actor, ask_actor, qty, price) = r.unwrap();
    assert_eq!(bid_actor, s("alice"));
    assert_eq!(ask_actor, s("bob"));
    assert_eq!(qty, 10);
    assert_eq!(price, 5);
    assert!(m.bid_orders.is_empty());
    assert!(m.ask_orders.is_empty());
}

#[test]
fn execute_dispatches_deposit_and_insert() {
    let st = OrderBookState::new(s("USD"));
    let (st, r) = orderbook::execute(
        s("alice"),
        s("book"),
        st,
        OrderBookAction::DepositAsset {},
        Some((TokenAction::Transfer { recipient: s("book"), amount: 60 }, s("USD"))),
    );
    assert_eq!(r, Ok(s("Deposit success for alice - USD")));
    assert_eq!(st.balance(&s("alice"), &s("USD")), 60);
    let (st, r) = orderbook::execute(
        s("alice"),
        s("book"),
        st,
        OrderBookAction::InsertOrder {
            order_asset: s("TOK"),
            order_type: OrderType::Bid,
            order_price: 6,
            order_quantity: 10,
        },
        None,
    );
    assert_eq!(r, Ok(s("Order inserted successfully for alice - TOK")));
    assert_eq!(st.balance(&s("alice"), &s("USD")), 0);
    assert_eq!(st.markets.len(), 1);
    assert_eq!(st.markets[0].1.bid_orders.len(), 1);
}

#[test]
fn failed_insert_leaves_state_untouched() {
    let mut c = contract("USD");
    deposit(&mut c, "alice", "USD", 10);
    let digest_before = c.state.as_digest();
    let r = insert(&mut c, "alice", OrderType::Bid, "TOK", 5, 10);
    assert!(r.is_err());
    assert_eq!(c.state.as_digest(), digest_before);
}

#[test]
fn fits_guards_detect_overflow() {
    let mut c = contract("USD");
    assert!(c.deposit_fits(&s("USD"), u128::MAX));
    deposit(&mut c, "alice", "USD", 1);
    assert!(!c.deposit_fits(&s("USD"), u128::MAX));
    let huge = Order {
        order_actor: s("alice"),
        order_type: OrderType::Bid,
        order_price: u64::MAX,
        order_quantity: u128::MAX / 2,
    };
    assert!(!c.insert_order_fits_now(&huge, &s("TOK")));
    let small = Order {
        order_actor: s("alice"),
        order_type: OrderType::Bid,
        order_price: 5,
        order_quantity: 10,
    };
    assert!(c.insert_order_fits_now(&small, &s("TOK")));
}

fn usd_total(st: &OrderBookState) -> u128 {
    let balances: u128 = st
        .balances
        .iter()
        .flat_map(|e| e.1.iter())
        .filter(|e| e.0 == "USD")
        .map(|e| e.1)
        .sum();
    let reserves: u128 = st
        .markets
        .iter()
        .flat_map(|e| e.1.bid_orders.iter())
        .map(|o| o.order_price as u128 * o.order_quantity)
        .sum();
    balances + reserves
}

#[test]
fn conservation_across_matching() {
    let mut c = contract("USD");
    deposit(&mut c, "alice", "USD", 200);
    deposit(&mut c, "bob", "TOK", 30);
    assert_eq!(usd_total(&c.state), 200);
    insert(&mut c, "alice", OrderType::Bid, "TOK", 5, 10).unwrap();
    assert_eq!(usd_total(&c.state), 200);
    // The trade settles at the resting bid's own price: no base-asset value
    // appears or disappears.
    insert(&mut c, "bob", OrderType::Ask, "TOK", 5, 30).unwrap();
    assert_eq!(usd_total(&c.state), 200);
    // TOK is conserved too: balances plus resting ask quantity.
    let tok_balances: u128 = c
        .state
        .balances
        .iter()
        .flat_map(|e| e.1.iter())
        .filter(|e| e.0 == "TOK")
        .map(|e| e.1)
        .sum();
    let tok_resting: u128 = market(&c.state, "TOK")
        .unwrap()
        .ask_orders
        .iter()
        .map(|o| o.order_quantity)
        .sum();
    assert_eq!(tok_balances + tok_resting, 30);
}

#[test]
fn bid_above_ask_is_refunded_the_difference() {
    // An incoming bid settling below its own limit price: the reserve is
    // taken at the bid's price, the seller is paid at the resting ask's
    // price, and the difference flows back to the bidder, so the base
    // asset's total is conserved.
    let mut c = contract("USD");
    deposit(&mut c, "alice", "USD", 100);
    deposit(&mut c, "bob", "TOK", 10);
    insert(&mut c, "bob", OrderType::Ask, "TOK", 4, 10).unwrap();
    assert_eq!(usd_total(&c.state), 100);
    insert(&mut c, "alice", OrderType::Bid, "TOK", 5, 10).unwrap();
    // Reserve 50 taken; bob is paid 40 at his ask's price; 10 is refunded.
    assert_eq!(c.state.balance(&s("alice"), &s("USD")), 60);
    assert_eq!(c.state.balance(&s("bob"), &s("USD")), 40);
    assert_eq!(c.state.balance(&s("alice"), &s("TOK")), 10);
    assert_eq!(usd_total(&c.state), 100);
}

#[test]
fn ask_book_stays_sorted() {
    let mut c = contract("USD");
    deposit(&mut c, "ann", "TOK", 100);
    for price in [9u64, 2, 5, 2, 7] {
        insert(&mut c, "ann", OrderType::Ask, "TOK", price, 3).unwrap();
    }
    let asks: Vec<u64> = market(&c.state, "TOK")
        .unwrap()
        .ask_orders
        .iter()
        .map(|o| o.order_price)
        .collect();
    assert_eq!(asks, vec![2, 2, 5, 7, 9]);
}

#[test]
fn well_formed_accepts_reachable_and_rejects_broken_states() {
    let mut c = contract("USD");
    deposit(&mut c, "alice", "USD", 100);
    insert(&mut c, "alice", OrderType::Bid, "TOK", 5, 10).unwrap();
    assert!(c.state.well_formed());
    let mut broken = OrderBookState::new(s("USD"));
    broken.balances.push((s("alice"), vec![(s("USD"), 1), (s("USD"), 2)]));
    assert!(!broken.well_formed());
    let mut unsorted = OrderBookState::new(s("USD"));
    let mk = |p: u64| Order {
        order_actor: s("x"),
        order_type: OrderType::Ask,
        order_price: p,
        order_quantity: 1,
    };
    unsorted.markets.push((
        s("TOK"),
        Market { ask_orders: vec![mk(9), mk(2)], bid_orders: vec![] },
    ));
    assert!(!unsorted.well_formed());
}
