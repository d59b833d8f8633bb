//! The state digest: a fixed byte layout for [`OrderBookState`], written and
//! read by verified code, with a proved encode/decode round trip.
//!
//! Layout: integers are little-endian (`u32` for characters, `u64` for
//! lengths and prices, `u128` for quantities and amounts); a string is its
//! character count as `u64` followed by each character's scalar value as
//! `u32`; a list is its length as `u64` followed by its items; an order is
//! side byte (0 ask, 1 bid), actor, price, quantity; a market is its asks
//! then its bids; the state is the base asset, the market list (name, market)
//! and the balance table (identity, then (asset, amount) pairs).
use vstd::prelude::*;

use crate::book::{Market, MarketV, Order, OrderType, OrderV};
use crate::state::{OrderBookState, StateV};

verus! {

pub open spec fn u32_le(x: u32) -> Seq<u8> {
    seq![x as u8, (x >> 8) as u8, (x >> 16) as u8, (x >> 24) as u8]
}

pub open spec fn u64_le(x: u64) -> Seq<u8> {
    seq![
        x as u8,
        (x >> 8) as u8,
        (x >> 16) as u8,
        (x >> 24) as u8,
        (x >> 32) as u8,
        (x >> 40) as u8,
        (x >> 48) as u8,
        (x >> 56) as u8,
    ]
}

pub open spec fn u128_le(x: u128) -> Seq<u8> {
    seq![
        x as u8,
        (x >> 8) as u8,
        (x >> 16) as u8,
        (x >> 24) as u8,
        (x >> 32) as u8,
        (x >> 40) as u8,
        (x >> 48) as u8,
        (x >> 56) as u8,
        (x >> 64) as u8,
        (x >> 72) as u8,
        (x >> 80) as u8,
        (x >> 88) as u8,
        (x >> 96) as u8,
        (x >> 104) as u8,
        (x >> 112) as u8,
        (x >> 120) as u8,
    ]
}

pub open spec fn le_u32(b: Seq<u8>, p: int) -> u32 {
    (b[p] as u32) | ((b[p + 1] as u32) << 8) | ((b[p + 2] as u32) << 16) | ((b[p + 3] as u32)
        << 24)
}

pub open spec fn le_u64(b: Seq<u8>, p: int) -> u64 {
    (b[p] as u64) | ((b[p + 1] as u64) << 8) | ((b[p + 2] as u64) << 16) | ((b[p + 3] as u64)
        << 24) | ((b[p + 4] as u64) << 32) | ((b[p + 5] as u64) << 40) | ((b[p + 6] as u64) << 48)
        | ((b[p + 7] as u64) << 56)
}

pub open spec fn le_u128(b: Seq<u8>, p: int) -> u128 {
    (b[p] as u128) | ((b[p + 1] as u128) << 8) | ((b[p + 2] as u128) << 16) | ((b[p + 3] as u128)
        << 24) | ((b[p + 4] as u128) << 32) | ((b[p + 5] as u128) << 40) | ((b[p + 6] as u128)
        << 48) | ((b[p + 7] as u128) << 56) | ((b[p + 8] as u128) << 64) | ((b[p + 9] as u128)
        << 72) | ((b[p + 10] as u128) << 80) | ((b[p + 11] as u128) << 88) | ((b[p + 12] as u128)
        << 96) | ((b[p + 13] as u128) << 104) | ((b[p + 14] as u128) << 112) | ((b[p
        + 15] as u128) << 120)
}

pub open spec fn dec_u32(b: Seq<u8>, p: int) -> Option<(u32, int)> {
    if 0 <= p && p + 4 <= b.len() {
        Some((le_u32(b, p), p + 4))
    } else {
        None
    }
}

pub open spec fn dec_u64(b: Seq<u8>, p: int) -> Option<(u64, int)> {
    if 0 <= p && p + 8 <= b.len() {
        Some((le_u64(b, p), p + 8))
    } else {
        None
    }
}

pub open spec fn dec_u128(b: Seq<u8>, p: int) -> Option<(u128, int)> {
    if 0 <= p && p + 16 <= b.len() {
        Some((le_u128(b, p), p + 16))
    } else {
        None
    }
}

proof fn lemma_u32_rt(b: Seq<u8>, p: int, x: u32)
    requires
        0 <= p,
        p + 4 <= b.len(),
        b.subrange(p, p + 4) == u32_le(x),
    ensures
        dec_u32(b, p) == Some((x, p + 4)),
{
    assert(b[p] == u32_le(x)[0]);
    assert(b[p + 1] == u32_le(x)[1]);
    assert(b[p + 2] == u32_le(x)[2]);
    assert(b[p + 3] == u32_le(x)[3]);
    assert(((x as u8) as u32) | ((((x >> 8) as u8) as u32) << 8) | ((((x >> 16) as u8) as u32)
        << 16) | ((((x >> 24) as u8) as u32) << 24) == x) by (bit_vector);
}

proof fn lemma_u64_rt(b: Seq<u8>, p: int, x: u64)
    requires
        0 <= p,
        p + 8 <= b.len(),
        b.subrange(p, p + 8) == u64_le(x),
    ensures
        dec_u64(b, p) == Some((x, p + 8)),
{
    assert(b[p] == u64_le(x)[0]);
    assert(b[p + 1] == u64_le(x)[1]);
    assert(b[p + 2] == u64_le(x)[2]);
    assert(b[p + 3] == u64_le(x)[3]);
    assert(b[p + 4] == u64_le(x)[4]);
    assert(b[p + 5] == u64_le(x)[5]);
    assert(b[p + 6] == u64_le(x)[6]);
    assert(b[p + 7] == u64_le(x)[7]);
    assert(((x as u8) as u64) | ((((x >> 8) as u8) as u64) << 8) | ((((x >> 16) as u8) as u64)
        << 16) | ((((x >> 24) as u8) as u64) << 24) | ((((x >> 32) as u8) as u64) << 32) | ((((x
        >> 40) as u8) as u64) << 40) | ((((x >> 48) as u8) as u64) << 48) | ((((x
        >> 56) as u8) as u64) << 56) == x) by (bit_vector);
}

proof fn lemma_u128_rt(b: Seq<u8>, p: int, x: u128)
    requires
        0 <= p,
        p + 16 <= b.len(),
        b.subrange(p, p + 16) == u128_le(x),
    ensures
        dec_u128(b, p) == Some((x, p + 16)),
{
    assert forall|i: int| 0 <= i < 16 implies b[p + i] == u128_le(x)[i] by {}
    assert(b[p] == u128_le(x)[0]);
    assert(b[p + 1] == u128_le(x)[1]);
    assert(b[p + 2] == u128_le(x)[2]);
    assert(b[p + 3] == u128_le(x)[3]);
    assert(b[p + 4] == u128_le(x)[4]);
    assert(b[p + 5] == u128_le(x)[5]);
    assert(b[p + 6] == u128_le(x)[6]);
    assert(b[p + 7] == u128_le(x)[7]);
    assert(b[p + 8] == u128_le(x)[8]);
    assert(b[p + 9] == u128_le(x)[9]);
    assert(b[p + 10] == u128_le(x)[10]);
    assert(b[p + 11] == u128_le(x)[11]);
    assert(b[p + 12] == u128_le(x)[12]);
    assert(b[p + 13] == u128_le(x)[13]);
    assert(b[p + 14] == u128_le(x)[14]);
    assert(b[p + 15] == u128_le(x)[15]);
    assert(((x as u8) as u128) | ((((x >> 8) as u8) as u128) << 8) | ((((x >> 16) as u8) as u128)
        << 16) | ((((x >> 24) as u8) as u128) << 24) | ((((x >> 32) as u8) as u128) << 32) | ((((x
        >> 40) as u8) as u128) << 40) | ((((x >> 48) as u8) as u128) << 48) | ((((x
        >> 56) as u8) as u128) << 56) | ((((x >> 64) as u8) as u128) << 64) | ((((x
        >> 72) as u8) as u128) << 72) | ((((x >> 80) as u8) as u128) << 80) | ((((x
        >> 88) as u8) as u128) << 88) | ((((x >> 96) as u8) as u128) << 96) | ((((x
        >> 104) as u8) as u128) << 104) | ((((x >> 112) as u8) as u128) << 112) | ((((x
        >> 120) as u8) as u128) << 120) == x) by (bit_vector);
}

/// Splitting a matched concatenation: when a byte range holds `s1 + s2`, its
/// two halves hold `s1` and `s2`.
proof fn lemma_split(b: Seq<u8>, p: int, s1: Seq<u8>, s2: Seq<u8>)
    requires
        0 <= p,
        p + s1.len() + s2.len() <= b.len(),
        b.subrange(p, p + s1.len() + s2.len()) == s1 + s2,
    ensures
        b.subrange(p, p + s1.len()) == s1,
        b.subrange(p + s1.len(), p + s1.len() + s2.len()) == s2,
{
    assert forall|i: int| 0 <= i < s1.len() + s2.len() implies b[p + i] == (s1 + s2)[i] by {
        assert(b.subrange(p, p + s1.len() + s2.len())[i] == b[p + i]);
    }
    assert forall|i: int| 0 <= i < s1.len() implies b.subrange(p, p + s1.len())[i] == s1[i] by {
        assert(b[p + i] == (s1 + s2)[i]);
    }
    assert forall|i: int| 0 <= i < s2.len() implies b.subrange(
        p + s1.len(),
        p + s1.len() + s2.len(),
    )[i] == s2[i] by {
        assert(b[p + s1.len() + i] == (s1 + s2)[s1.len() + i]);
    }
    assert(b.subrange(p, p + s1.len()) =~= s1);
    assert(b.subrange(p + s1.len(), p + s1.len() + s2.len()) =~= s2);
}

/// A unicode scalar value: what a `char` may hold.
pub open spec fn valid_scalar(u: u32) -> bool {
    u < 0xD800 || (0xE000 <= u && u <= 0x10FFFF)
}

/// A character's scalar value is valid and converts back to the character.
proof fn lemma_char_codes(c: char)
    ensures
        valid_scalar(c as u32),
        (c as u32) as char == c,
{
}

pub open spec fn enc_chars(s: Seq<char>) -> Seq<u8>
    decreases s.len(),
{
    if s.len() == 0 {
        Seq::empty()
    } else {
        u32_le(s[0] as u32) + enc_chars(s.drop_first())
    }
}

pub open spec fn enc_str(s: Seq<char>) -> Seq<u8> {
    u64_le(s.len() as u64) + enc_chars(s)
}

pub open spec fn dec_chars(b: Seq<u8>, p: int, n: nat) -> Option<(Seq<char>, int)>
    decreases n,
{
    if n == 0 {
        Some((Seq::empty(), p))
    } else {
        match dec_u32(b, p) {
            None => None,
            Some(t) => {
                if valid_scalar(t.0) {
                    match dec_chars(b, t.1, (n - 1) as nat) {
                        None => None,
                        Some(t2) => Some((seq![t.0 as char] + t2.0, t2.1)),
                    }
                } else {
                    None
                }
            },
        }
    }
}

pub open spec fn dec_str(b: Seq<u8>, p: int) -> Option<(Seq<char>, int)> {
    match dec_u64(b, p) {
        None => None,
        Some(t) => dec_chars(b, t.1, t.0 as nat),
    }
}

proof fn lemma_enc_chars_len(s: Seq<char>)
    ensures
        enc_chars(s).len() == 4 * s.len(),
    decreases s.len(),
{
    if s.len() > 0 {
        lemma_enc_chars_len(s.drop_first());
    }
}

proof fn lemma_chars_rt(b: Seq<u8>, p: int, s: Seq<char>)
    requires
        0 <= p,
        p + 4 * s.len() <= b.len(),
        b.subrange(p, p + 4 * s.len()) == enc_chars(s),
    ensures
        dec_chars(b, p, s.len()) == Some((s, p + 4 * s.len())),
    decreases s.len(),
{
    if s.len() > 0 {
        lemma_enc_chars_len(s.drop_first());
        lemma_split(b, p, u32_le(s[0] as u32), enc_chars(s.drop_first()));
        lemma_u32_rt(b, p, s[0] as u32);
        lemma_chars_rt(b, p + 4, s.drop_first());
        lemma_char_codes(s[0]);
        assert(seq![(s[0] as u32) as char] + s.drop_first() =~= s);
    }
}

proof fn lemma_str_rt(b: Seq<u8>, p: int, s: Seq<char>)
    requires
        0 <= p,
        s.len() <= u64::MAX,
        p + enc_str(s).len() <= b.len(),
        b.subrange(p, p + enc_str(s).len()) == enc_str(s),
    ensures
        enc_str(s).len() == 8 + 4 * s.len(),
        dec_str(b, p) == Some((s, p + enc_str(s).len())),
{
    lemma_enc_chars_len(s);
    lemma_split(b, p, u64_le(s.len() as u64), enc_chars(s));
    lemma_u64_rt(b, p, s.len() as u64);
    lemma_chars_rt(b, p + 8, s);
}

pub open spec fn enc_order_type(t: OrderType) -> Seq<u8> {
    seq![
        if t == OrderType::Ask {
            0u8
        } else {
            1u8
        },
    ]
}

pub open spec fn dec_order_type(b: Seq<u8>, p: int) -> Option<(OrderType, int)> {
    if 0 <= p && p + 1 <= b.len() {
        if b[p] == 0 {
            Some((OrderType::Ask, p + 1))
        } else if b[p] == 1 {
            Some((OrderType::Bid, p + 1))
        } else {
            None
        }
    } else {
        None
    }
}

pub open spec fn enc_order(o: OrderV) -> Seq<u8> {
    enc_order_type(o.ty) + enc_str(o.actor) + u64_le(o.price) + u128_le(o.quantity)
}

pub open spec fn dec_order(b: Seq<u8>, p: int) -> Option<(OrderV, int)> {
    match dec_order_type(b, p) {
        None => None,
        Some(t) => match dec_str(b, t.1) {
            None => None,
            Some(a) => match dec_u64(b, a.1) {
                None => None,
                Some(pr) => match dec_u128(b, pr.1) {
                    None => None,
                    Some(q) => Some(
                        (OrderV { actor: a.0, ty: t.0, price: pr.0, quantity: q.0 }, q.1),
                    ),
                },
            },
        },
    }
}

proof fn lemma_order_rt(b: Seq<u8>, p: int, o: OrderV)
    requires
        0 <= p,
        o.actor.len() <= u64::MAX,
        p + enc_order(o).len() <= b.len(),
        b.subrange(p, p + enc_order(o).len()) == enc_order(o),
    ensures
        dec_order(b, p) == Some((o, p + enc_order(o).len())),
{
    lemma_enc_chars_len(o.actor);
    let rest1 = enc_str(o.actor) + u64_le(o.price) + u128_le(o.quantity);
    assert(enc_order(o) =~= enc_order_type(o.ty) + rest1);
    lemma_split(b, p, enc_order_type(o.ty), rest1);
    let p1 = p + 1;
    let rest2 = u64_le(o.price) + u128_le(o.quantity);
    assert(rest1 =~= enc_str(o.actor) + rest2);
    lemma_split(b, p1, enc_str(o.actor), rest2);
    let p2 = p1 + enc_str(o.actor).len();
    lemma_str_rt(b, p1, o.actor);
    assert(rest2 =~= u64_le(o.price) + u128_le(o.quantity));
    lemma_split(b, p2, u64_le(o.price), u128_le(o.quantity));
    lemma_u64_rt(b, p2, o.price);
    lemma_u128_rt(b, p2 + 8, o.quantity);
    assert(b.subrange(p, p + 1) == enc_order_type(o.ty));
    assert(b[p] == enc_order_type(o.ty)[0]);
}

pub open spec fn enc_orders_items(s: Seq<OrderV>) -> Seq<u8>
    decreases s.len(),
{
    if s.len() == 0 {
        Seq::empty()
    } else {
        enc_order(s[0]) + enc_orders_items(s.drop_first())
    }
}

pub open spec fn enc_orders(s: Seq<OrderV>) -> Seq<u8> {
    u64_le(s.len() as u64) + enc_orders_items(s)
}

pub open spec fn dec_orders_items(b: Seq<u8>, p: int, n: nat) -> Option<(Seq<OrderV>, int)>
    decreases n,
{
    if n == 0 {
        Some((Seq::empty(), p))
    } else {
        match dec_order(b, p) {
            None => None,
            Some(t) => match dec_orders_items(b, t.1, (n - 1) as nat) {
                None => None,
                Some(t2) => Some((seq![t.0] + t2.0, t2.1)),
            },
        }
    }
}

pub open spec fn dec_orders(b: Seq<u8>, p: int) -> Option<(Seq<OrderV>, int)> {
    match dec_u64(b, p) {
        None => None,
        Some(t) => dec_orders_items(b, t.1, t.0 as nat),
    }
}

/// Every string is short enough for its count to survive the `u64` length
/// field; true of every value executable code can hold.
pub open spec fn orders_bounded(s: Seq<OrderV>) -> bool {
    &&& s.len() <= u64::MAX
    &&& forall|i: int| 0 <= i < s.len() ==> (#[trigger] s[i]).actor.len() <= u64::MAX
}

proof fn lemma_orders_items_rt(b: Seq<u8>, p: int, s: Seq<OrderV>)
    requires
        0 <= p,
        orders_bounded(s),
        p + enc_orders_items(s).len() <= b.len(),
        b.subrange(p, p + enc_orders_items(s).len()) == enc_orders_items(s),
    ensures
        dec_orders_items(b, p, s.len()) == Some((s, p + enc_orders_items(s).len())),
    decreases s.len(),
{
    if s.len() > 0 {
        lemma_split(b, p, enc_order(s[0]), enc_orders_items(s.drop_first()));
        lemma_order_rt(b, p, s[0]);
        assert(orders_bounded(s.drop_first())) by {
            assert forall|i: int| 0 <= i < s.drop_first().len() implies (#[trigger] s.drop_first()[
                i
            ]).actor.len() <= u64::MAX by {
                assert(s.drop_first()[i] == s[i + 1]);
            }
        }
        lemma_orders_items_rt(b, p + enc_order(s[0]).len(), s.drop_first());
        assert(seq![s[0]] + s.drop_first() =~= s);
    }
}

proof fn lemma_orders_rt(b: Seq<u8>, p: int, s: Seq<OrderV>)
    requires
        0 <= p,
        orders_bounded(s),
        p + enc_orders(s).len() <= b.len(),
        b.subrange(p, p + enc_orders(s).len()) == enc_orders(s),
    ensures
        dec_orders(b, p) == Some((s, p + enc_orders(s).len())),
{
    lemma_split(b, p, u64_le(s.len() as u64), enc_orders_items(s));
    lemma_u64_rt(b, p, s.len() as u64);
    lemma_orders_items_rt(b, p + 8, s);
}

pub open spec fn enc_market(m: MarketV) -> Seq<u8> {
    enc_orders(m.asks) + enc_orders(m.bids)
}

pub open spec fn dec_market(b: Seq<u8>, p: int) -> Option<(MarketV, int)> {
    match dec_orders(b, p) {
        None => None,
        Some(a) => match dec_orders(b, a.1) {
            None => None,
            Some(d) => Some((MarketV { asks: a.0, bids: d.0 }, d.1)),
        },
    }
}

pub open spec fn market_bounded(m: MarketV) -> bool {
    orders_bounded(m.asks) && orders_bounded(m.bids)
}

proof fn lemma_market_rt(b: Seq<u8>, p: int, m: MarketV)
    requires
        0 <= p,
        market_bounded(m),
        p + enc_market(m).len() <= b.len(),
        b.subrange(p, p + enc_market(m).len()) == enc_market(m),
    ensures
        dec_market(b, p) == Some((m, p + enc_market(m).len())),
{
    lemma_split(b, p, enc_orders(m.asks), enc_orders(m.bids));
    lemma_orders_rt(b, p, m.asks);
    lemma_orders_rt(b, p + enc_orders(m.asks).len(), m.bids);
    assert(MarketV { asks: m.asks, bids: m.bids } =~= m);
}

pub open spec fn enc_markets_items(s: Seq<(Seq<char>, MarketV)>) -> Seq<u8>
    decreases s.len(),
{
    if s.len() == 0 {
        Seq::empty()
    } else {
        enc_str(s[0].0) + enc_market(s[0].1) + enc_markets_items(s.drop_first())
    }
}

pub open spec fn enc_markets(s: Seq<(Seq<char>, MarketV)>) -> Seq<u8> {
    u64_le(s.len() as u64) + enc_markets_items(s)
}

pub open spec fn dec_markets_items(b: Seq<u8>, p: int, n: nat) -> Option<
    (Seq<(Seq<char>, MarketV)>, int),
>
    decreases n,
{
    if n == 0 {
        Some((Seq::empty(), p))
    } else {
        match dec_str(b, p) {
            None => None,
            Some(k) => match dec_market(b, k.1) {
                None => None,
                Some(m) => match dec_markets_items(b, m.1, (n - 1) as nat) {
                    None => None,
                    Some(t2) => Some((seq![(k.0, m.0)] + t2.0, t2.1)),
                },
            },
        }
    }
}

pub open spec fn dec_markets(b: Seq<u8>, p: int) -> Option<(Seq<(Seq<char>, MarketV)>, int)> {
    match dec_u64(b, p) {
        None => None,
        Some(t) => dec_markets_items(b, t.1, t.0 as nat),
    }
}

pub open spec fn markets_bounded(s: Seq<(Seq<char>, MarketV)>) -> bool {
    &&& s.len() <= u64::MAX
    &&& forall|i: int|
        0 <= i < s.len() ==> (#[trigger] s[i]).0.len() <= u64::MAX && market_bounded(s[i].1)
}

#[verifier::rlimit(100)]
proof fn lemma_markets_items_rt(b: Seq<u8>, p: int, s: Seq<(Seq<char>, MarketV)>)
    requires
        0 <= p,
        markets_bounded(s),
        p + enc_markets_items(s).len() <= b.len(),
        b.subrange(p, p + enc_markets_items(s).len()) == enc_markets_items(s),
    ensures
        dec_markets_items(b, p, s.len()) == Some((s, p + enc_markets_items(s).len())),
    decreases s.len(),
{
    if s.len() > 0 {
        let rest = enc_market(s[0].1) + enc_markets_items(s.drop_first());
        assert(enc_markets_items(s) =~= enc_str(s[0].0) + rest);
        lemma_split(b, p, enc_str(s[0].0), rest);
        lemma_str_rt(b, p, s[0].0);
        let p1 = p + enc_str(s[0].0).len();
        lemma_split(b, p1, enc_market(s[0].1), enc_markets_items(s.drop_first()));
        lemma_market_rt(b, p1, s[0].1);
        assert(markets_bounded(s.drop_first())) by {
            assert forall|i: int| 0 <= i < s.drop_first().len() implies (#[trigger] s.drop_first()[
                i
            ]).0.len() <= u64::MAX && market_bounded(s.drop_first()[i].1) by {
                assert(s.drop_first()[i] == s[i + 1]);
            }
        }
        lemma_markets_items_rt(b, p1 + enc_market(s[0].1).len(), s.drop_first());
        assert(seq![(s[0].0, s[0].1)] + s.drop_first() =~= s);
    }
}

pub open spec fn enc_assets_items(s: Seq<(Seq<char>, u128)>) -> Seq<u8>
    decreases s.len(),
{
    if s.len() == 0 {
        Seq::empty()
    } else {
        enc_str(s[0].0) + u128_le(s[0].1) + enc_assets_items(s.drop_first())
    }
}

pub open spec fn enc_assets(s: Seq<(Seq<char>, u128)>) -> Seq<u8> {
    u64_le(s.len() as u64) + enc_assets_items(s)
}

pub open spec fn dec_assets_items(b: Seq<u8>, p: int, n: nat) -> Option<
    (Seq<(Seq<char>, u128)>, int),
>
    decreases n,
{
    if n == 0 {
        Some((Seq::empty(), p))
    } else {
        match dec_str(b, p) {
            None => None,
            Some(k) => match dec_u128(b, k.1) {
                None => None,
                Some(v) => match dec_assets_items(b, v.1, (n - 1) as nat) {
                    None => None,
                    Some(t2) => Some((seq![(k.0, v.0)] + t2.0, t2.1)),
                },
            },
        }
    }
}

pub open spec fn dec_assets(b: Seq<u8>, p: int) -> Option<(Seq<(Seq<char>, u128)>, int)> {
    match dec_u64(b, p) {
        None => None,
        Some(t) => dec_assets_items(b, t.1, t.0 as nat),
    }
}

pub open spec fn assets_bounded(s: Seq<(Seq<char>, u128)>) -> bool {
    &&& s.len() <= u64::MAX
    &&& forall|i: int| 0 <= i < s.len() ==> (#[trigger] s[i]).0.len() <= u64::MAX
}

proof fn lemma_assets_items_rt(b: Seq<u8>, p: int, s: Seq<(Seq<char>, u128)>)
    requires
        0 <= p,
        assets_bounded(s),
        p + enc_assets_items(s).len() <= b.len(),
        b.subrange(p, p + enc_assets_items(s).len()) == enc_assets_items(s),
    ensures
        dec_assets_items(b, p, s.len()) == Some((s, p + enc_assets_items(s).len())),
    decreases s.len(),
{
    if s.len() > 0 {
        let rest = u128_le(s[0].1) + enc_assets_items(s.drop_first());
        assert(enc_assets_items(s) =~= enc_str(s[0].0) + rest);
        lemma_split(b, p, enc_str(s[0].0), rest);
        lemma_str_rt(b, p, s[0].0);
        let p1 = p + enc_str(s[0].0).len();
        lemma_split(b, p1, u128_le(s[0].1), enc_assets_items(s.drop_first()));
        lemma_u128_rt(b, p1, s[0].1);
        assert(assets_bounded(s.drop_first())) by {
            assert forall|i: int| 0 <= i < s.drop_first().len() implies (#[trigger] s.drop_first()[
                i
            ]).0.len() <= u64::MAX by {
                assert(s.drop_first()[i] == s[i + 1]);
            }
        }
        lemma_assets_items_rt(b, p1 + 16, s.drop_first());
        assert(seq![(s[0].0, s[0].1)] + s.drop_first() =~= s);
    }
}

pub open spec fn enc_balances_items(s: Seq<(Seq<char>, Seq<(Seq<char>, u128)>)>) -> Seq<u8>
    decreases s.len(),
{
    if s.len() == 0 {
        Seq::empty()
    } else {
        enc_str(s[0].0) + enc_assets(s[0].1) + enc_balances_items(s.drop_first())
    }
}

pub open spec fn enc_balances(s: Seq<(Seq<char>, Seq<(Seq<char>, u128)>)>) -> Seq<u8> {
    u64_le(s.len() as u64) + enc_balances_items(s)
}

pub open spec fn dec_balances_items(b: Seq<u8>, p: int, n: nat) -> Option<
    (Seq<(Seq<char>, Seq<(Seq<char>, u128)>)>, int),
>
    decreases n,
{
    if n == 0 {
        Some((Seq::empty(), p))
    } else {
        match dec_str(b, p) {
            None => None,
            Some(k) => match dec_assets(b, k.1) {
                None => None,
                Some(v) => match dec_balances_items(b, v.1, (n - 1) as nat) {
                    None => None,
                    Some(t2) => Some((seq![(k.0, v.0)] + t2.0, t2.1)),
                },
            },
        }
    }
}

pub open spec fn dec_balances(b: Seq<u8>, p: int) -> Option<
    (Seq<(Seq<char>, Seq<(Seq<char>, u128)>)>, int),
> {
    match dec_u64(b, p) {
        None => None,
        Some(t) => dec_balances_items(b, t.1, t.0 as nat),
    }
}

pub open spec fn balances_bounded(s: Seq<(Seq<char>, Seq<(Seq<char>, u128)>)>) -> bool {
    &&& s.len() <= u64::MAX
    &&& forall|i: int|
        0 <= i < s.len() ==> (#[trigger] s[i]).0.len() <= u64::MAX && assets_bounded(s[i].1)
}

#[verifier::rlimit(100)]
proof fn lemma_balances_items_rt(b: Seq<u8>, p: int, s: Seq<(Seq<char>, Seq<(Seq<char>, u128)>)>)
    requires
        0 <= p,
        balances_bounded(s),
        p + enc_balances_items(s).len() <= b.len(),
        b.subrange(p, p + enc_balances_items(s).len()) == enc_balances_items(s),
    ensures
        dec_balances_items(b, p, s.len()) == Some((s, p + enc_balances_items(s).len())),
    decreases s.len(),
{
    if s.len() > 0 {
        let rest = enc_assets(s[0].1) + enc_balances_items(s.drop_first());
        assert(enc_balances_items(s) =~= enc_str(s[0].0) + rest);
        lemma_split(b, p, enc_str(s[0].0), rest);
        lemma_str_rt(b, p, s[0].0);
        let p1 = p + enc_str(s[0].0).len();
        lemma_split(b, p1, enc_assets(s[0].1), enc_balances_items(s.drop_first()));
        lemma_split(b, p1, u64_le(s[0].1.len() as u64), enc_assets_items(s[0].1));
        lemma_u64_rt(b, p1, s[0].1.len() as u64);
        lemma_assets_items_rt(b, p1 + 8, s[0].1);
        assert(balances_bounded(s.drop_first())) by {
            assert forall|i: int| 0 <= i < s.drop_first().len() implies (#[trigger] s.drop_first()[
                i
            ]).0.len() <= u64::MAX && assets_bounded(s.drop_first()[i].1) by {
                assert(s.drop_first()[i] == s[i + 1]);
            }
        }
        lemma_balances_items_rt(b, p1 + enc_assets(s[0].1).len(), s.drop_first());
        assert(seq![(s[0].0, s[0].1)] + s.drop_first() =~= s);
    }
}

pub open spec fn enc_state(v: StateV) -> Seq<u8> {
    enc_str(v.base) + enc_markets(v.markets) + enc_balances(v.balances)
}

pub open spec fn dec_state(b: Seq<u8>, p: int) -> Option<(StateV, int)> {
    match dec_str(b, p) {
        None => None,
        Some(ba) => match dec_markets(b, ba.1) {
            None => None,
            Some(ms) => match dec_balances(b, ms.1) {
                None => None,
                Some(bs) => Some((StateV { base: ba.0, markets: ms.0, balances: bs.0 }, bs.1)),
            },
        },
    }
}

/// Every length in the state fits the `u64` length fields; true of every
/// state executable code can hold.
pub open spec fn state_bounded(v: StateV) -> bool {
    &&& v.base.len() <= u64::MAX
    &&& markets_bounded(v.markets)
    &&& balances_bounded(v.balances)
}

/// Decoding an encoded state yields the state back, whole: every field of
/// every market, order, and balance entry survives the trip exactly.
#[verifier::rlimit(100)]
#[verifier::spinoff_prover]
pub proof fn law_digest_round_trip(v: StateV)
    requires
        state_bounded(v),
    ensures
        dec_state(enc_state(v), 0) == Some((v, enc_state(v).len() as int)),
{
    let b = enc_state(v);
    assert(b.subrange(0, b.len() as int) =~= b);
    let rest = enc_markets(v.markets) + enc_balances(v.balances);
    vstd::seq_lib::lemma_concat_associative(
        enc_str(v.base),
        enc_markets(v.markets),
        enc_balances(v.balances),
    );
    lemma_split(b, 0, enc_str(v.base), rest);
    lemma_str_rt(b, 0, v.base);
    let p1 = enc_str(v.base).len() as int;
    lemma_split(b, p1, enc_markets(v.markets), enc_balances(v.balances));
    lemma_split(b, p1, u64_le(v.markets.len() as u64), enc_markets_items(v.markets));
    lemma_u64_rt(b, p1, v.markets.len() as u64);
    lemma_markets_items_rt(b, p1 + 8, v.markets);
    let p2 = p1 + enc_markets(v.markets).len();
    lemma_split(b, p2, u64_le(v.balances.len() as u64), enc_balances_items(v.balances));
    lemma_u64_rt(b, p2, v.balances.len() as u64);
    lemma_balances_items_rt(b, p2 + 8, v.balances);
    assert(StateV { base: v.base, markets: v.markets, balances: v.balances } =~= v);
}

proof fn lemma_enc_chars_snoc(s: Seq<char>, i: int)
    requires
        0 <= i < s.len(),
    ensures
        enc_chars(s.take(i + 1)) == enc_chars(s.take(i)) + u32_le(s[i] as u32),
    decreases i,
{
    if i == 0 {
        assert(s.take(1)[0] == s[0]);
        assert(s.take(1).drop_first() =~= Seq::<char>::empty());
        assert(s.take(0) =~= Seq::<char>::empty());
        assert(enc_chars(s.take(1)) =~= enc_chars(s.take(0)) + u32_le(s[0] as u32));
    } else {
        lemma_enc_chars_snoc(s.drop_first(), i - 1);
        assert(s.take(i + 1)[0] == s[0]);
        assert(s.take(i + 1).drop_first() =~= s.drop_first().take(i));
        assert(s.take(i)[0] == s[0]);
        assert(s.take(i).drop_first() =~= s.drop_first().take(i - 1));
        assert(s.drop_first()[i - 1] == s[i]);
        vstd::seq_lib::lemma_concat_associative(
            u32_le(s[0] as u32),
            enc_chars(s.drop_first().take(i - 1)),
            u32_le(s[i] as u32),
        );
    }
}

proof fn lemma_orders_items_snoc(s: Seq<OrderV>, i: int)
    requires
        0 <= i < s.len(),
    ensures
        enc_orders_items(s.take(i + 1)) == enc_orders_items(s.take(i)) + enc_order(s[i]),
    decreases i,
{
    if i == 0 {
        assert(s.take(1)[0] == s[0]);
        assert(s.take(1).drop_first() =~= Seq::<OrderV>::empty());
        assert(s.take(0) =~= Seq::<OrderV>::empty());
        assert(enc_orders_items(s.take(1)) =~= enc_orders_items(s.take(0)) + enc_order(s[0]));
    } else {
        lemma_orders_items_snoc(s.drop_first(), i - 1);
        assert(s.take(i + 1)[0] == s[0]);
        assert(s.take(i + 1).drop_first() =~= s.drop_first().take(i));
        assert(s.take(i)[0] == s[0]);
        assert(s.take(i).drop_first() =~= s.drop_first().take(i - 1));
        assert(s.drop_first()[i - 1] == s[i]);
        vstd::seq_lib::lemma_concat_associative(
            enc_order(s[0]),
            enc_orders_items(s.drop_first().take(i - 1)),
            enc_order(s[i]),
        );
    }
}

proof fn lemma_markets_items_snoc(s: Seq<(Seq<char>, MarketV)>, i: int)
    requires
        0 <= i < s.len(),
    ensures
        enc_markets_items(s.take(i + 1)) == enc_markets_items(s.take(i)) + (enc_str(s[i].0)
            + enc_market(s[i].1)),
    decreases i,
{
    if i == 0 {
        assert(s.take(1)[0] == s[0]);
        assert(s.take(1).drop_first() =~= Seq::<(Seq<char>, MarketV)>::empty());
        assert(s.take(0) =~= Seq::<(Seq<char>, MarketV)>::empty());
        assert(enc_markets_items(s.take(1)) =~= enc_markets_items(s.take(0)) + (enc_str(s[0].0)
            + enc_market(s[0].1)));
    } else {
        lemma_markets_items_snoc(s.drop_first(), i - 1);
        assert(s.take(i + 1)[0] == s[0]);
        assert(s.take(i + 1).drop_first() =~= s.drop_first().take(i));
        assert(s.take(i)[0] == s[0]);
        assert(s.take(i).drop_first() =~= s.drop_first().take(i - 1));
        assert(s.drop_first()[i - 1] == s[i]);
        vstd::seq_lib::lemma_concat_associative(
            enc_str(s[0].0) + enc_market(s[0].1),
            enc_markets_items(s.drop_first().take(i - 1)),
            enc_str(s[i].0) + enc_market(s[i].1),
        );
    }
}

proof fn lemma_assets_items_snoc(s: Seq<(Seq<char>, u128)>, i: int)
    requires
        0 <= i < s.len(),
    ensures
        enc_assets_items(s.take(i + 1)) == enc_assets_items(s.take(i)) + (enc_str(s[i].0)
            + u128_le(s[i].1)),
    decreases i,
{
    if i == 0 {
        assert(s.take(1)[0] == s[0]);
        assert(s.take(1).drop_first() =~= Seq::<(Seq<char>, u128)>::empty());
        assert(s.take(0) =~= Seq::<(Seq<char>, u128)>::empty());
        assert(enc_assets_items(s.take(1)) =~= enc_assets_items(s.take(0)) + (enc_str(s[0].0)
            + u128_le(s[0].1)));
    } else {
        lemma_assets_items_snoc(s.drop_first(), i - 1);
        assert(s.take(i + 1)[0] == s[0]);
        assert(s.take(i + 1).drop_first() =~= s.drop_first().take(i));
        assert(s.take(i)[0] == s[0]);
        assert(s.take(i).drop_first() =~= s.drop_first().take(i - 1));
        assert(s.drop_first()[i - 1] == s[i]);
        vstd::seq_lib::lemma_concat_associative(
            enc_str(s[0].0) + u128_le(s[0].1),
            enc_assets_items(s.drop_first().take(i - 1)),
            enc_str(s[i].0) + u128_le(s[i].1),
        );
    }
}

proof fn lemma_balances_items_snoc(s: Seq<(Seq<char>, Seq<(Seq<char>, u128)>)>, i: int)
    requires
        0 <= i < s.len(),
    ensures
        enc_balances_items(s.take(i + 1)) == enc_balances_items(s.take(i)) + (enc_str(s[i].0)
            + enc_assets(s[i].1)),
    decreases i,
{
    if i == 0 {
        assert(s.take(1)[0] == s[0]);
        assert(s.take(1).drop_first() =~= Seq::<(Seq<char>, Seq<(Seq<char>, u128)>)>::empty());
        assert(s.take(0) =~= Seq::<(Seq<char>, Seq<(Seq<char>, u128)>)>::empty());
        assert(enc_balances_items(s.take(1)) =~= enc_balances_items(s.take(0)) + (enc_str(s[0].0)
            + enc_assets(s[0].1)));
    } else {
        lemma_balances_items_snoc(s.drop_first(), i - 1);
        assert(s.take(i + 1)[0] == s[0]);
        assert(s.take(i + 1).drop_first() =~= s.drop_first().take(i));
        assert(s.take(i)[0] == s[0]);
        assert(s.take(i).drop_first() =~= s.drop_first().take(i - 1));
        assert(s.drop_first()[i - 1] == s[i]);
        vstd::seq_lib::lemma_concat_associative(
            enc_str(s[0].0) + enc_assets(s[0].1),
            enc_balances_items(s.drop_first().take(i - 1)),
            enc_str(s[i].0) + enc_assets(s[i].1),
        );
    }
}

fn push_u32(out: &mut Vec<u8>, x: u32)
    ensures
        final(out)@ == old(out)@ + u32_le(x),
{
    out.push(#[verifier::truncate] (x as u8));
    out.push(#[verifier::truncate] ((x >> 8) as u8));
    out.push(#[verifier::truncate] ((x >> 16) as u8));
    out.push(#[verifier::truncate] ((x >> 24) as u8));
    proof {
        assert(out@ =~= old(out)@ + u32_le(x));
    }
}

fn push_u64(out: &mut Vec<u8>, x: u64)
    ensures
        final(out)@ == old(out)@ + u64_le(x),
{
    out.push(#[verifier::truncate] (x as u8));
    out.push(#[verifier::truncate] ((x >> 8) as u8));
    out.push(#[verifier::truncate] ((x >> 16) as u8));
    out.push(#[verifier::truncate] ((x >> 24) as u8));
    out.push(#[verifier::truncate] ((x >> 32) as u8));
    out.push(#[verifier::truncate] ((x >> 40) as u8));
    out.push(#[verifier::truncate] ((x >> 48) as u8));
    out.push(#[verifier::truncate] ((x >> 56) as u8));
    proof {
        assert(out@ =~= old(out)@ + u64_le(x));
    }
}

fn push_u128(out: &mut Vec<u8>, x: u128)
    ensures
        final(out)@ == old(out)@ + u128_le(x),
{
    out.push(#[verifier::truncate] (x as u8));
    out.push(#[verifier::truncate] ((x >> 8) as u8));
    out.push(#[verifier::truncate] ((x >> 16) as u8));
    out.push(#[verifier::truncate] ((x >> 24) as u8));
    out.push(#[verifier::truncate] ((x >> 32) as u8));
    out.push(#[verifier::truncate] ((x >> 40) as u8));
    out.push(#[verifier::truncate] ((x >> 48) as u8));
    out.push(#[verifier::truncate] ((x >> 56) as u8));
    out.push(#[verifier::truncate] ((x >> 64) as u8));
    out.push(#[verifier::truncate] ((x >> 72) as u8));
    out.push(#[verifier::truncate] ((x >> 80) as u8));
    out.push(#[verifier::truncate] ((x >> 88) as u8));
    out.push(#[verifier::truncate] ((x >> 96) as u8));
    out.push(#[verifier::truncate] ((x >> 104) as u8));
    out.push(#[verifier::truncate] ((x >> 112) as u8));
    out.push(#[verifier::truncate] ((x >> 120) as u8));
    proof {
        assert(out@ =~= old(out)@ + u128_le(x));
    }
}

fn push_str_enc(out: &mut Vec<u8>, s: &String)
    ensures
        final(out)@ == old(out)@ + enc_str(s@),
{
    let ghost base = out@;
    let sr = s.as_str();
    let n = sr.unicode_len();
    push_u64(out, n as u64);
    let mut i: usize = 0;
    while i < n
        invariant
            n == sr@.len(),
            sr@ == s@,
            i <= n,
            out@ == base + u64_le(n as u64) + enc_chars(s@.take(i as int)),
        decreases n - i,
    {
        let c = sr.get_char(i);
        push_u32(out, c as u32);
        proof {
            lemma_enc_chars_snoc(s@, i as int);
            vstd::seq_lib::lemma_concat_associative(
                base + u64_le(n as u64),
                enc_chars(s@.take(i as int)),
                u32_le(s@[i as int] as u32),
            );
        }
        i = i + 1;
    }
    proof {
        assert(s@.take(n as int) =~= s@);
        vstd::seq_lib::lemma_concat_associative(base, u64_le(n as u64), enc_chars(s@));
        assert(enc_chars(s@.take(0)) =~= Seq::<u8>::empty());
        assert(base + u64_le(n as u64) + enc_chars(s@.take(0)) =~= base + u64_le(n as u64));
    }
}

fn push_order(out: &mut Vec<u8>, o: &Order)
    ensures
        final(out)@ == old(out)@ + enc_order(o@),
{
    let ghost base = out@;
    match o.order_type {
        OrderType::Ask => out.push(0u8),
        OrderType::Bid => out.push(1u8),
    }
    proof {
        assert(out@ =~= base + enc_order_type(o@.ty));
    }
    push_str_enc(out, &o.order_actor);
    push_u64(out, o.order_price);
    push_u128(out, o.order_quantity);
    proof {
        vstd::seq_lib::lemma_concat_associative(
            base,
            enc_order_type(o@.ty),
            enc_str(o@.actor),
        );
        vstd::seq_lib::lemma_concat_associative(
            base,
            enc_order_type(o@.ty) + enc_str(o@.actor),
            u64_le(o@.price),
        );
        vstd::seq_lib::lemma_concat_associative(
            base,
            enc_order_type(o@.ty) + enc_str(o@.actor) + u64_le(o@.price),
            u128_le(o@.quantity),
        );
    }
}

fn push_orders(out: &mut Vec<u8>, s: &Vec<Order>)
    ensures
        final(out)@ == old(out)@ + enc_orders(s.deep_view()),
{
    let ghost base = out@;
    let ghost sv = s.deep_view();
    let n = s.len();
    push_u64(out, n as u64);
    let mut i: usize = 0;
    while i < n
        invariant
            n == s.len(),
            sv == s.deep_view(),
            i <= n,
            out@ == base + u64_le(n as u64) + enc_orders_items(sv.take(i as int)),
        decreases n - i,
    {
        push_order(out, &s[i]);
        proof {
            lemma_orders_items_snoc(sv, i as int);
            vstd::seq_lib::lemma_concat_associative(
                base + u64_le(n as u64),
                enc_orders_items(sv.take(i as int)),
                enc_order(sv[i as int]),
            );
        }
        i = i + 1;
    }
    proof {
        assert(sv.take(n as int) =~= sv);
        vstd::seq_lib::lemma_concat_associative(base, u64_le(n as u64), enc_orders_items(sv));
        assert(enc_orders_items(sv.take(0)) =~= Seq::<u8>::empty());
        assert(base + u64_le(n as u64) + enc_orders_items(sv.take(0)) =~= base + u64_le(
            n as u64,
        ));
    }
}

fn push_market(out: &mut Vec<u8>, m: &Market)
    ensures
        final(out)@ == old(out)@ + enc_market(m@),
{
    let ghost base = out@;
    push_orders(out, &m.ask_orders);
    push_orders(out, &m.bid_orders);
    proof {
        vstd::seq_lib::lemma_concat_associative(
            base,
            enc_orders(m@.asks),
            enc_orders(m@.bids),
        );
    }
}

fn push_markets(out: &mut Vec<u8>, s: &Vec<(String, Market)>)
    ensures
        final(out)@ == old(out)@ + enc_markets(s.deep_view()),
{
    let ghost base = out@;
    let ghost sv = s.deep_view();
    let n = s.len();
    push_u64(out, n as u64);
    let mut i: usize = 0;
    while i < n
        invariant
            n == s.len(),
            sv == s.deep_view(),
            i <= n,
            out@ == base + u64_le(n as u64) + enc_markets_items(sv.take(i as int)),
        decreases n - i,
    {
        let ghost mid = out@;
        push_str_enc(out, &s[i].0);
        push_market(out, &s[i].1);
        proof {
            assert(sv[i as int] == (s@[i as int].0@, s@[i as int].1@));
            vstd::seq_lib::lemma_concat_associative(
                mid,
                enc_str(sv[i as int].0),
                enc_market(sv[i as int].1),
            );
            lemma_markets_items_snoc(sv, i as int);
            vstd::seq_lib::lemma_concat_associative(
                base + u64_le(n as u64),
                enc_markets_items(sv.take(i as int)),
                enc_str(sv[i as int].0) + enc_market(sv[i as int].1),
            );
        }
        i = i + 1;
    }
    proof {
        assert(sv.take(n as int) =~= sv);
        vstd::seq_lib::lemma_concat_associative(base, u64_le(n as u64), enc_markets_items(sv));
        assert(enc_markets_items(sv.take(0)) =~= Seq::<u8>::empty());
        assert(base + u64_le(n as u64) + enc_markets_items(sv.take(0)) =~= base + u64_le(
            n as u64,
        ));
    }
}

fn push_assets(out: &mut Vec<u8>, s: &Vec<(String, u128)>)
    ensures
        final(out)@ == old(out)@ + enc_assets(s.deep_view()),
{
    let ghost base = out@;
    let ghost sv = s.deep_view();
    let n = s.len();
    push_u64(out, n as u64);
    let mut i: usize = 0;
    while i < n
        invariant
            n == s.len(),
            sv == s.deep_view(),
            i <= n,
            out@ == base + u64_le(n as u64) + enc_assets_items(sv.take(i as int)),
        decreases n - i,
    {
        let ghost mid = out@;
        push_str_enc(out, &s[i].0);
        push_u128(out, s[i].1);
        proof {
            assert(sv[i as int] == (s@[i as int].0@, s@[i as int].1));
            vstd::seq_lib::lemma_concat_associative(
                mid,
                enc_str(sv[i as int].0),
                u128_le(sv[i as int].1),
            );
            lemma_assets_items_snoc(sv, i as int);
            vstd::seq_lib::lemma_concat_associative(
                base + u64_le(n as u64),
                enc_assets_items(sv.take(i as int)),
                enc_str(sv[i as int].0) + u128_le(sv[i as int].1),
            );
        }
        i = i + 1;
    }
    proof {
        assert(sv.take(n as int) =~= sv);
        vstd::seq_lib::lemma_concat_associative(base, u64_le(n as u64), enc_assets_items(sv));
        assert(enc_assets_items(sv.take(0)) =~= Seq::<u8>::empty());
        assert(base + u64_le(n as u64) + enc_assets_items(sv.take(0)) =~= base + u64_le(
            n as u64,
        ));
    }
}

fn push_balances(out: &mut Vec<u8>, s: &Vec<(String, Vec<(String, u128)>)>)
    ensures
        final(out)@ == old(out)@ + enc_balances(s.deep_view()),
{
    let ghost base = out@;
    let ghost sv = s.deep_view();
    let n = s.len();
    push_u64(out, n as u64);
    let mut i: usize = 0;
    while i < n
        invariant
            n == s.len(),
            sv == s.deep_view(),
            i <= n,
            out@ == base + u64_le(n as u64) + enc_balances_items(sv.take(i as int)),
        decreases n - i,
    {
        let ghost mid = out@;
        push_str_enc(out, &s[i].0);
        push_assets(out, &s[i].1);
        proof {
            assert(sv[i as int] == (s@[i as int].0@, s@[i as int].1.deep_view()));
            vstd::seq_lib::lemma_concat_associative(
                mid,
                enc_str(sv[i as int].0),
                enc_assets(sv[i as int].1),
            );
            lemma_balances_items_snoc(sv, i as int);
            vstd::seq_lib::lemma_concat_associative(
                base + u64_le(n as u64),
                enc_balances_items(sv.take(i as int)),
                enc_str(sv[i as int].0) + enc_assets(sv[i as int].1),
            );
        }
        i = i + 1;
    }
    proof {
        assert(sv.take(n as int) =~= sv);
        vstd::seq_lib::lemma_concat_associative(base, u64_le(n as u64), enc_balances_items(sv));
        assert(enc_balances_items(sv.take(0)) =~= Seq::<u8>::empty());
        assert(base + u64_le(n as u64) + enc_balances_items(sv.take(0)) =~= base + u64_le(
            n as u64,
        ));
    }
}

impl OrderBookState {
    /// The state serialized to its digest bytes.
    pub fn as_digest(&self) -> (r: Vec<u8>)
        ensures
            r@ == enc_state(self@),
    {
        let mut out: Vec<u8> = Vec::new();
        push_str_enc(&mut out, &self.base_asset);
        push_markets(&mut out, &self.markets);
        push_balances(&mut out, &self.balances);
        proof {
            assert(Seq::<u8>::empty() + enc_str(self@.base) =~= enc_str(self@.base));
            vstd::seq_lib::lemma_concat_associative(
                Seq::<u8>::empty(),
                enc_str(self@.base),
                enc_markets(self@.markets),
            );
            vstd::seq_lib::lemma_concat_associative(
                Seq::<u8>::empty(),
                enc_str(self@.base) + enc_markets(self@.markets),
                enc_balances(self@.balances),
            );
            assert(Seq::<u8>::empty() + enc_state(self@) =~= enc_state(self@));
        }
        out
    }
}


/// Relies on char::from_u32: `Some` exactly for unicode scalar values, and
/// the returned character carries the given value.
#[verifier::external_body]
fn char_from_u32(u: u32) -> (r: Option<char>)
    ensures
        r is Some <==> valid_scalar(u),
        r matches Some(c) ==> c as u32 == u,
{
    char::from_u32(u)
}

/// Relies on String::push: appends one character to the string.
#[verifier::external_body]
fn string_push(s: &mut String, c: char)
    ensures
        final(s)@ == old(s)@.push(c),
{
    s.push(c)
}

fn read_u32(b: &Vec<u8>, pos: &mut usize) -> (r: Option<u32>)
    ensures
        ({
            let d = dec_u32(b@, (*old(pos)) as int);
            match d {
                Some(t) => r == Some(t.0) && (*final(pos)) as int == t.1,
                None => r is None && *final(pos) == *old(pos),
            }
        }),
{
    let p = *pos;
    if b.len() < 4 || p > b.len() - 4 {
        return None;
    }
    let x = (b[p] as u32) | ((b[p + 1] as u32) << 8) | ((b[p + 2] as u32) << 16) | ((b[p
        + 3] as u32) << 24);
    *pos = p + 4;
    Some(x)
}

fn read_u64(b: &Vec<u8>, pos: &mut usize) -> (r: Option<u64>)
    ensures
        ({
            let d = dec_u64(b@, (*old(pos)) as int);
            match d {
                Some(t) => r == Some(t.0) && (*final(pos)) as int == t.1,
                None => r is None && *final(pos) == *old(pos),
            }
        }),
{
    let p = *pos;
    if b.len() < 8 || p > b.len() - 8 {
        return None;
    }
    let x = (b[p] as u64) | ((b[p + 1] as u64) << 8) | ((b[p + 2] as u64) << 16) | ((b[p
        + 3] as u64) << 24) | ((b[p + 4] as u64) << 32) | ((b[p + 5] as u64) << 40) | ((b[p
        + 6] as u64) << 48) | ((b[p + 7] as u64) << 56);
    *pos = p + 8;
    Some(x)
}

fn read_u128(b: &Vec<u8>, pos: &mut usize) -> (r: Option<u128>)
    ensures
        ({
            let d = dec_u128(b@, (*old(pos)) as int);
            match d {
                Some(t) => r == Some(t.0) && (*final(pos)) as int == t.1,
                None => r is None && *final(pos) == *old(pos),
            }
        }),
{
    let p = *pos;
    if b.len() < 16 || p > b.len() - 16 {
        return None;
    }
    let x = (b[p] as u128) | ((b[p + 1] as u128) << 8) | ((b[p + 2] as u128) << 16) | ((b[p
        + 3] as u128) << 24) | ((b[p + 4] as u128) << 32) | ((b[p + 5] as u128) << 40) | ((b[p
        + 6] as u128) << 48) | ((b[p + 7] as u128) << 56) | ((b[p + 8] as u128) << 64) | ((b[p
        + 9] as u128) << 72) | ((b[p + 10] as u128) << 80) | ((b[p + 11] as u128) << 88) | ((b[p
        + 12] as u128) << 96) | ((b[p + 13] as u128) << 104) | ((b[p + 14] as u128) << 112) | ((
    b[p + 15] as u128) << 120);
    *pos = p + 16;
    Some(x)
}

fn read_str(b: &Vec<u8>, pos: &mut usize) -> (r: Option<String>)
    ensures
        ({
            let d = dec_str(b@, (*old(pos)) as int);
            match d {
                Some(t) => r matches Some(s2) && s2@ == t.0 && (*final(pos)) as int == t.1,
                None => r is None,
            }
        }),
{
    let ghost p0 = *pos as int;
    let n = match read_u64(b, pos) {
        None => {
            return None;
        },
        Some(v) => v,
    };
    let mut acc = String::new();
    let mut i: u64 = 0;
    while i < n
        invariant
            i <= n,
            p0 == (*old(pos)) as int,
            dec_u64(b@, p0) == Some((n, p0 + 8)),
            ({
                let d = dec_chars(b@, *pos as int, (n - i) as nat);
                dec_chars(b@, p0 + 8, n as nat) == (match d {
                    None => None::<(Seq<char>, int)>,
                    Some(t) => Some((acc@ + t.0, t.1)),
                })
            }),
        decreases n - i,
    {
        let ghost pi = *pos as int;
        let ghost rem = (n - i) as nat;
        let ghost acc0 = acc@;
        let u = match read_u32(b, pos) {
            None => {
                proof {
                    assert(rem > 0);
                    assert(dec_chars(b@, pi, rem) is None);
                    assert(dec_chars(b@, p0 + 8, n as nat) is None);
                }
                return None;
            },
            Some(v) => v,
        };
        let c = match char_from_u32(u) {
            None => {
                proof {
                    assert(rem > 0);
                    assert(dec_u32(b@, pi) == Some((u, pi + 4)));
                    assert(!valid_scalar(u));
                    assert(dec_chars(b@, pi, rem) is None);
                    assert(dec_chars(b@, p0 + 8, n as nat) is None);
                }
                return None;
            },
            Some(cc) => cc,
        };
        proof {
            lemma_char_codes(c);
        }
        string_push(&mut acc, c);
        i = i + 1;
        proof {
            let d2 = dec_chars(b@, *pos as int, (n - i) as nat);
            match d2 {
                None => {},
                Some(t2) => {
                    assert(acc0 + (seq![u as char] + t2.0) =~= acc@ + t2.0);
                },
            }
        }
    }
    proof {
        assert(dec_chars(b@, *pos as int, 0) == Some((Seq::<char>::empty(), *pos as int)));
        assert(acc@ + Seq::<char>::empty() =~= acc@);
    }
    Some(acc)
}


fn read_order(b: &Vec<u8>, pos: &mut usize) -> (r: Option<Order>)
    ensures
        ({
            let d = dec_order(b@, (*old(pos)) as int);
            match d {
                Some(t) => r matches Some(o) && o@ == t.0 && (*final(pos)) as int == t.1,
                None => r is None,
            }
        }),
{
    let p = *pos;
    if p >= b.len() {
        return None;
    }
    let tyb = b[p];
    let ty = if tyb == 0 {
        OrderType::Ask
    } else if tyb == 1 {
        OrderType::Bid
    } else {
        return None;
    };
    *pos = p + 1;
    let actor = match read_str(b, pos) {
        None => {
            return None;
        },
        Some(v) => v,
    };
    let price = match read_u64(b, pos) {
        None => {
            return None;
        },
        Some(v) => v,
    };
    let qty = match read_u128(b, pos) {
        None => {
            return None;
        },
        Some(v) => v,
    };
    Some(Order { order_actor: actor, order_type: ty, order_price: price, order_quantity: qty })
}

fn read_orders(b: &Vec<u8>, pos: &mut usize) -> (r: Option<Vec<Order>>)
    ensures
        ({
            let d = dec_orders(b@, (*old(pos)) as int);
            match d {
                Some(t) => r matches Some(v) && v.deep_view() == t.0 && (*final(pos)) as int
                    == t.1,
                None => r is None,
            }
        }),
{
    let ghost p0 = *pos as int;
    let n = match read_u64(b, pos) {
        None => {
            return None;
        },
        Some(v) => v,
    };
    let mut acc: Vec<Order> = Vec::new();
    proof {
        assert(acc.deep_view() =~= Seq::<OrderV>::empty());
    }
    let mut i: u64 = 0;
    while i < n
        invariant
            i <= n,
            p0 == (*old(pos)) as int,
            dec_u64(b@, p0) == Some((n, p0 + 8)),
            ({
                let d = dec_orders_items(b@, *pos as int, (n - i) as nat);
                dec_orders_items(b@, p0 + 8, n as nat) == (match d {
                    None => None::<(Seq<OrderV>, int)>,
                    Some(t) => Some((acc.deep_view() + t.0, t.1)),
                })
            }),
        decreases n - i,
    {
        let ghost acc0 = acc.deep_view();
        let o = match read_order(b, pos) {
            None => {
                return None;
            },
            Some(v) => v,
        };
        acc.push(o);
        i = i + 1;
        proof {
            assert(acc.deep_view() =~= acc0.push(o@));
            let d2 = dec_orders_items(b@, *pos as int, (n - i) as nat);
            match d2 {
                None => {},
                Some(t2) => {
                    assert(acc0 + (seq![o@] + t2.0) =~= acc.deep_view() + t2.0);
                },
            }
        }
    }
    proof {
        assert(acc.deep_view() + Seq::<OrderV>::empty() =~= acc.deep_view());
    }
    Some(acc)
}

fn read_market(b: &Vec<u8>, pos: &mut usize) -> (r: Option<Market>)
    ensures
        ({
            let d = dec_market(b@, (*old(pos)) as int);
            match d {
                Some(t) => r matches Some(m) && m@ == t.0 && (*final(pos)) as int == t.1,
                None => r is None,
            }
        }),
{
    let asks = match read_orders(b, pos) {
        None => {
            return None;
        },
        Some(v) => v,
    };
    let bids = match read_orders(b, pos) {
        None => {
            return None;
        },
        Some(v) => v,
    };
    Some(Market { ask_orders: asks, bid_orders: bids })
}

fn read_markets(b: &Vec<u8>, pos: &mut usize) -> (r: Option<Vec<(String, Market)>>)
    ensures
        ({
            let d = dec_markets(b@, (*old(pos)) as int);
            match d {
                Some(t) => r matches Some(v) && v.deep_view() == t.0 && (*final(pos)) as int
                    == t.1,
                None => r is None,
            }
        }),
{
    let ghost p0 = *pos as int;
    let n = match read_u64(b, pos) {
        None => {
            return None;
        },
        Some(v) => v,
    };
    let mut acc: Vec<(String, Market)> = Vec::new();
    proof {
        assert(acc.deep_view() =~= Seq::<(Seq<char>, MarketV)>::empty());
    }
    let mut i: u64 = 0;
    while i < n
        invariant
            i <= n,
            p0 == (*old(pos)) as int,
            dec_u64(b@, p0) == Some((n, p0 + 8)),
            ({
                let d = dec_markets_items(b@, *pos as int, (n - i) as nat);
                dec_markets_items(b@, p0 + 8, n as nat) == (match d {
                    None => None::<(Seq<(Seq<char>, MarketV)>, int)>,
                    Some(t) => Some((acc.deep_view() + t.0, t.1)),
                })
            }),
        decreases n - i,
    {
        let ghost acc0 = acc.deep_view();
        let k = match read_str(b, pos) {
            None => {
                return None;
            },
            Some(v) => v,
        };
        let m = match read_market(b, pos) {
            None => {
                return None;
            },
            Some(v) => v,
        };
        let ghost kv = k@;
        let ghost mv = m@;
        acc.push((k, m));
        i = i + 1;
        proof {
            assert(acc.deep_view() =~= acc0.push((kv, mv)));
            let d2 = dec_markets_items(b@, *pos as int, (n - i) as nat);
            match d2 {
                None => {},
                Some(t2) => {
                    assert(acc0 + (seq![(kv, mv)] + t2.0) =~= acc.deep_view() + t2.0);
                },
            }
        }
    }
    proof {
        assert(acc.deep_view() + Seq::<(Seq<char>, MarketV)>::empty() =~= acc.deep_view());
    }
    Some(acc)
}

fn read_assets(b: &Vec<u8>, pos: &mut usize) -> (r: Option<Vec<(String, u128)>>)
    ensures
        ({
            let d = dec_assets(b@, (*old(pos)) as int);
            match d {
                Some(t) => r matches Some(v) && v.deep_view() == t.0 && (*final(pos)) as int
                    == t.1,
                None => r is None,
            }
        }),
{
    let ghost p0 = *pos as int;
    let n = match read_u64(b, pos) {
        None => {
            return None;
        },
        Some(v) => v,
    };
    let mut acc: Vec<(String, u128)> = Vec::new();
    proof {
        assert(acc.deep_view() =~= Seq::<(Seq<char>, u128)>::empty());
    }
    let mut i: u64 = 0;
    while i < n
        invariant
            i <= n,
            p0 == (*old(pos)) as int,
            dec_u64(b@, p0) == Some((n, p0 + 8)),
            ({
                let d = dec_assets_items(b@, *pos as int, (n - i) as nat);
                dec_assets_items(b@, p0 + 8, n as nat) == (match d {
                    None => None::<(Seq<(Seq<char>, u128)>, int)>,
                    Some(t) => Some((acc.deep_view() + t.0, t.1)),
                })
            }),
        decreases n - i,
    {
        let ghost acc0 = acc.deep_view();
        let k = match read_str(b, pos) {
            None => {
                return None;
            },
            Some(v) => v,
        };
        let a = match read_u128(b, pos) {
            None => {
                return None;
            },
            Some(v) => v,
        };
        let ghost kv = k@;
        acc.push((k, a));
        i = i + 1;
        proof {
            assert(acc.deep_view() =~= acc0.push((kv, a)));
            let d2 = dec_assets_items(b@, *pos as int, (n - i) as nat);
            match d2 {
                None => {},
                Some(t2) => {
                    assert(acc0 + (seq![(kv, a)] + t2.0) =~= acc.deep_view() + t2.0);
                },
            }
        }
    }
    proof {
        assert(acc.deep_view() + Seq::<(Seq<char>, u128)>::empty() =~= acc.deep_view());
    }
    Some(acc)
}

fn read_balances(b: &Vec<u8>, pos: &mut usize) -> (r: Option<Vec<(String, Vec<(String, u128)>)>>)
    ensures
        ({
            let d = dec_balances(b@, (*old(pos)) as int);
            match d {
                Some(t) => r matches Some(v) && v.deep_view() == t.0 && (*final(pos)) as int
                    == t.1,
                None => r is None,
            }
        }),
{
    let ghost p0 = *pos as int;
    let n = match read_u64(b, pos) {
        None => {
            return None;
        },
        Some(v) => v,
    };
    let mut acc: Vec<(String, Vec<(String, u128)>)> = Vec::new();
    proof {
        assert(acc.deep_view() =~= Seq::<(Seq<char>, Seq<(Seq<char>, u128)>)>::empty());
    }
    let mut i: u64 = 0;
    while i < n
        invariant
            i <= n,
            p0 == (*old(pos)) as int,
            dec_u64(b@, p0) == Some((n, p0 + 8)),
            ({
                let d = dec_balances_items(b@, *pos as int, (n - i) as nat);
                dec_balances_items(b@, p0 + 8, n as nat) == (match d {
                    None => None::<(Seq<(Seq<char>, Seq<(Seq<char>, u128)>)>, int)>,
                    Some(t) => Some((acc.deep_view() + t.0, t.1)),
                })
            }),
        decreases n - i,
    {
        let ghost acc0 = acc.deep_view();
        let k = match read_str(b, pos) {
            None => {
                return None;
            },
            Some(v) => v,
        };
        let a = match read_assets(b, pos) {
            None => {
                return None;
            },
            Some(v) => v,
        };
        let ghost kv = k@;
        let ghost av = a.deep_view();
        acc.push((k, a));
        i = i + 1;
        proof {
            assert(acc.deep_view() =~= acc0.push((kv, av)));
            let d2 = dec_balances_items(b@, *pos as int, (n - i) as nat);
            match d2 {
                None => {},
                Some(t2) => {
                    assert(acc0 + (seq![(kv, av)] + t2.0) =~= acc.deep_view() + t2.0);
                },
            }
        }
    }
    proof {
        assert(acc.deep_view() + Seq::<(Seq<char>, Seq<(Seq<char>, u128)>)>::empty()
            =~= acc.deep_view());
    }
    Some(acc)
}

impl OrderBookState {
    /// Reads a state back from its digest bytes; `None` when the bytes do
    /// not hold a well-formed encoding. Bytes past the encoded state are
    /// ignored.
    pub fn from_digest(bytes: &Vec<u8>) -> (r: Option<OrderBookState>)
        ensures
            ({
                let d = dec_state(bytes@, 0);
                match d {
                    Some(t) => r matches Some(st) && st@ == t.0,
                    None => r is None,
                }
            }),
    {
        let mut pos: usize = 0;
        let base = match read_str(bytes, &mut pos) {
            None => {
                return None;
            },
            Some(v) => v,
        };
        let markets = match read_markets(bytes, &mut pos) {
            None => {
                return None;
            },
            Some(v) => v,
        };
        let balances = match read_balances(bytes, &mut pos) {
            None => {
                return None;
            },
            Some(v) => v,
        };
        Some(OrderBookState { base_asset: base, markets: markets, balances: balances })
    }
}

} // verus!
