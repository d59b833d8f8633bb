use orderbook::{Market, Order, OrderBookState, OrderType};

fn s(t: &str) -> String {
    String::from(t)
}

fn order(actor: &str, ty: OrderType, price: u64, qty: u128) -> Order {
    Order { order_actor: s(actor), order_type: ty, order_price: price, order_quantity: qty }
}

#[test]
fn round_trip_empty_state() {
    let st = OrderBookState::new(s("USD"));
    let bytes = st.as_digest();
    let back = OrderBookState::from_digest(&bytes).unwrap();
    assert_eq!(back, st);
}

#[test]
fn round_trip_one_market_mixed_orders() {
    let st = OrderBookState {
        base_asset: s("USD"),
        markets: vec![(
            s("TOK"),
            Market {
                ask_orders: vec![order("ann", OrderType::Ask, 4, 7), order("ben", OrderType::Ask, 9, 1)],
                bid_orders: vec![order("cyd", OrderType::Bid, 3, 12)],
            },
        )],
        balances: vec![(s("ann"), vec![(s("USD"), 250)])],
    };
    let bytes = st.as_digest();
    let back = OrderBookState::from_digest(&bytes).unwrap();
    assert_eq!(back, st);
}

#[test]
fn round_trip_multiple_assets_and_balances() {
    let st = OrderBookState {
        base_asset: s("USD"),
        markets: vec![
            (
                s("TOK"),
                Market {
                    ask_orders: vec![order("ann", OrderType::Ask, 4, 7)],
                    bid_orders: vec![],
                },
            ),
            (
                s("GEM"),
                Market {
                    ask_orders: vec![],
                    bid_orders: vec![order("ben", OrderType::Bid, 11, 2)],
                },
            ),
        ],
        balances: vec![
            (s("ann"), vec![(s("USD"), 250), (s("TOK"), 3)]),
            (s("ben"), vec![(s("GEM"), u128::MAX)]),
        ],
    };
    let bytes = st.as_digest();
    let back = OrderBookState::from_digest(&bytes).unwrap();
    assert_eq!(back, st);
}

#[test]
fn round_trip_keeps_unicode_names() {
    let st = OrderBookState {
        base_asset: s("d\u{00e9}p\u{00f4}t-\u{20ac}"),
        markets: vec![],
        balances: vec![(s("\u{03b1}\u{03b2}\u{03b3}"), vec![(s("\u{00a5}"), 9)])],
    };
    let bytes = st.as_digest();
    let back = OrderBookState::from_digest(&bytes).unwrap();
    assert_eq!(back, st);
}

#[test]
fn truncated_digest_is_rejected() {
    let st = OrderBookState::new(s("USD"));
    let mut bytes = st.as_digest();
    bytes.pop();
    assert!(OrderBookState::from_digest(&bytes).is_none());
}

#[test]
fn invalid_scalar_value_is_rejected() {
    // A one-character base asset whose scalar value is forged into the
    // surrogate range must not decode.
    let st = OrderBookState::new(s("A"));
    let mut bytes = st.as_digest();
    // The character's little-endian u32 starts after the 8-byte length.
    bytes[8] = 0x00;
    bytes[9] = 0xD8;
    bytes[10] = 0x00;
    bytes[11] = 0x00;
    assert!(OrderBookState::from_digest(&bytes).is_none());
}

#[test]
fn digest_layout_is_deterministic() {
    let a = OrderBookState::new(s("USD"));
    let b = OrderBookState::new(s("USD"));
    assert_eq!(a.as_digest(), b.as_digest());
    // Length field (8) + three characters (12) + two empty list headers (16).
    assert_eq!(a.as_digest().len(), 8 + 12 + 8 + 8);
}
