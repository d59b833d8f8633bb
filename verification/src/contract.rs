//! The contract surface: the two state transitions (deposit, insert-order)
//! that combine ledger mutation with the matching algorithm and enforce
//! balance-sufficiency rules.
use vstd::prelude::*;

use crate::book::{
    lemma_process_wf, market_wf, process_order, spec_process, Market, MarketV, Order, OrderType,
    OrderV,
};
use crate::state::{
    assoc_set, balance_of, find_key, has_key, key_ix, lemma_key_ix, lemma_set_balance,
    lemma_set_market, market_of, set_balance, set_market, state_wf, OrderBookState, StateV,
};

verus! {

/// A token-ledger action as the outside asset ledger reports it. Only the
/// plain transfer funds a deposit; every other variant is rejected.
#[derive(Debug)]
pub enum TokenAction {
    TotalSupply,
    BalanceOf { account: String },
    Transfer { recipient: String, amount: u128 },
    TransferFrom { sender: String, recipient: String, amount: u128 },
    Approve { spender: String, amount: u128 },
}

/// The message a successful deposit returns.
pub open spec fn deposit_success_msg(id: Seq<char>, token: Seq<char>) -> Seq<char> {
    "Deposit success for "@ + id + " - "@ + token
}

/// The error a deposit returns when the transfer names another recipient.
pub open spec fn recipient_mismatch_msg(expected: Seq<char>, got: Seq<char>) -> Seq<char> {
    "Transfer recipient should be "@ + expected + " but was "@ + got
}

/// The error a deposit returns for any token action other than a transfer.
pub open spec fn unsupported_action_msg() -> Seq<char> {
    "Unsupported token action"@
}

/// The message a successful order insertion returns.
pub open spec fn insert_success_msg(id: Seq<char>, market: Seq<char>) -> Seq<char> {
    "Order inserted successfully for "@ + id + " - "@ + market
}

/// The error an order insertion returns when the reserve exceeds the
/// caller's balance.
pub open spec fn insufficient_balance_msg(id: Seq<char>, market: Seq<char>) -> Seq<char> {
    "Insufficient balance for "@ + id + " - "@ + market
}

fn concat_pair(head: &str, id: &String, mid: &str, tail: &String) -> (r: String)
    ensures
        r@ == head@ + id@ + mid@ + tail@,
{
    let mut s = String::from_str(head);
    s.append(id.as_str());
    s.append(mid);
    s.append(tail.as_str());
    s
}

/// The state after a deposit: the caller's balance for the token grows by
/// the transferred amount.
pub open spec fn spec_deposit(st: StateV, id: Seq<char>, token: Seq<char>, amount: u128) -> StateV {
    set_balance(st, id, token, (balance_of(st, id, token) + amount) as u128)
}

/// The reserve an order must lock before it may rest or match: for a bid,
/// price times quantity of the base asset; for an ask, its quantity of the
/// market's asset.
pub open spec fn reserve_of(o: OrderV) -> int {
    if o.ty == OrderType::Bid {
        (o.price as int) * (o.quantity as int)
    } else {
        o.quantity as int
    }
}

/// The asset an order's reserve is taken from.
pub open spec fn reserve_asset_of(st: StateV, o: OrderV, name: Seq<char>) -> Seq<char> {
    if o.ty == OrderType::Bid {
        st.base
    } else {
        name
    }
}

/// The full insert-order transition: the state afterwards, and whether the
/// order was accepted (`false` means the reserve exceeded the caller's
/// balance and nothing changed).
///
/// An accepted order debits its reserve, runs one matching step against the
/// market (created empty when absent), and on a match settles the trade: the
/// ask side's base-asset balance is credited with the settled amount, the
/// bid side's balance in the market's asset with the settled quantity, and a
/// bid settling below its own limit price is refunded the excess of its
/// reserve over the settled amount.
pub open spec fn spec_insert_order(
    st: StateV,
    id: Seq<char>,
    o: OrderV,
    name: Seq<char>,
) -> (StateV, bool) {
    let ra = reserve_asset_of(st, o, name);
    let res = reserve_of(o);
    if (balance_of(st, id, ra) as int) < res {
        (st, false)
    } else {
        let st1 = set_balance(st, id, ra, (balance_of(st, id, ra) as int - res) as u128);
        let pr = spec_process(o, market_of(st1, name));
        let st2 = set_market(st1, name, pr.0);
        match pr.1 {
            None => (st2, true),
            Some(mv) => {
                let amt = (mv.quantity as int) * (mv.price as int);
                let st3 = set_balance(
                    st2,
                    mv.ask_actor,
                    st.base,
                    (balance_of(st2, mv.ask_actor, st.base) + amt) as u128,
                );
                let st4 = set_balance(
                    st3,
                    mv.bid_actor,
                    name,
                    (balance_of(st3, mv.bid_actor, name) + mv.quantity) as u128,
                );
                if o.ty == OrderType::Bid && o.price > mv.price {
                    let refund = (mv.quantity as int) * ((o.price - mv.price) as int);
                    let st5 = set_balance(
                        st4,
                        mv.bid_actor,
                        st.base,
                        (balance_of(st4, mv.bid_actor, st.base) + refund) as u128,
                    );
                    (st5, true)
                } else {
                    (st4, true)
                }
            },
        }
    }
}

/// The machine-width bounds an insert-order call needs: the reserve and
/// every balance it credits fit in the balance type.
pub open spec fn insert_order_fits(st: StateV, id: Seq<char>, o: OrderV, name: Seq<char>) -> bool {
    let ra = reserve_asset_of(st, o, name);
    let res = reserve_of(o);
    &&& res <= u128::MAX
    &&& ((balance_of(st, id, ra) as int) >= res ==> {
        let st1 = set_balance(st, id, ra, (balance_of(st, id, ra) as int - res) as u128);
        let pr = spec_process(o, market_of(st1, name));
        let st2 = set_market(st1, name, pr.0);
        match pr.1 {
            None => true,
            Some(mv) => {
                let amt = (mv.quantity as int) * (mv.price as int);
                let st3 = set_balance(
                    st2,
                    mv.ask_actor,
                    st.base,
                    (balance_of(st2, mv.ask_actor, st.base) + amt) as u128,
                );
                let st4 = set_balance(
                    st3,
                    mv.bid_actor,
                    name,
                    (balance_of(st3, mv.bid_actor, name) + mv.quantity) as u128,
                );
                &&& balance_of(st2, mv.ask_actor, st.base) + amt <= u128::MAX
                &&& balance_of(st3, mv.bid_actor, name) + mv.quantity <= u128::MAX
                &&& (o.ty == OrderType::Bid && o.price > mv.price ==> balance_of(
                    st4,
                    mv.bid_actor,
                    st.base,
                ) + (mv.quantity as int) * ((o.price - mv.price) as int) <= u128::MAX)
            },
        }
    })
}

/// One deployed order book: who is calling, the contract's own name, and the
/// persisted state the call mutates.
pub struct OrderBookContract {
    pub identity: String,
    pub contract_name: String,
    pub state: OrderBookState,
}

impl OrderBookContract {
    /// Binds a caller identity and the contract's name to a state for one
    /// invocation.
    pub fn new(identity: String, contract_name: String, state: OrderBookState) -> (r:
        OrderBookContract)
        ensures
            r.identity@ == identity@,
            r.contract_name@ == contract_name@,
            r.state == state,
    {
        OrderBookContract { identity, contract_name, state }
    }


    /// Whether a deposit of `amount` for the caller in `erc20_name` stays
    /// within the balance type, so a caller can test the bound before
    /// depositing.
    pub fn deposit_fits(&self, erc20_name: &String, amount: u128) -> (r: bool)
        ensures
            r == (balance_of(self.state@, self.identity@, erc20_name@) + amount <= u128::MAX),
    {
        let bal = self.state.balance(&self.identity, erc20_name);
        bal.checked_add(amount).is_some()
    }


    /// Whether an insert-order call's machine-width bounds hold of the
    /// current state: the reserve and both settlement credits fit the
    /// balance type. A caller can test this before inserting; it reads the
    /// state and mutates nothing.
    pub fn insert_order_fits_now(&self, order: &Order, market_name: &String) -> (r: bool)
        requires
            state_wf(self.state@),
        ensures
            r == insert_order_fits(self.state@, self.identity@, order@, market_name@),
    {
        let ghost st0 = self.state@;
        let ghost idv = self.identity@;
        let ghost ov = order@;
        let ghost namev = market_name@;
        let is_bid = match order.order_type {
            OrderType::Bid => true,
            OrderType::Ask => false,
        };
        let base = self.state.base_asset.clone();
        let reserve: u128 = if is_bid {
            match (order.order_price as u128).checked_mul(order.order_quantity) {
                None => {
                    return false;
                },
                Some(v) => v,
            }
        } else {
            order.order_quantity
        };
        let bal = if is_bid {
            self.state.balance(&self.identity, &base)
        } else {
            self.state.balance(&self.identity, market_name)
        };
        if bal < reserve {
            return true;
        }
        let ghost ra = reserve_asset_of(st0, ov, namev);
        let ghost st1 = set_balance(st0, idv, ra, (balance_of(st0, idv, ra) - reserve) as u128);
        proof {
            lemma_set_balance(st0, idv, ra, (balance_of(st0, idv, ra) - reserve) as u128);
            lemma_key_ix(st1.markets, namev);
        }
        let mi = find_key(&self.state.markets, market_name);
        if mi == self.state.markets.len() {
            proof {
                assert(market_of(st1, namev).bids =~= Seq::<OrderV>::empty());
                assert(market_of(st1, namev).asks =~= Seq::<OrderV>::empty());
            }
            return true;
        }
        let counter: Order;
        {
            let m = &self.state.markets[mi].1;
            proof {
                assert(m@ == market_of(st1, namev));
            }
            let j = if is_bid {
                crate::book::find_first_match(&m.ask_orders, order.order_price, false, Ghost(ov))
            } else {
                crate::book::find_first_match(&m.bid_orders, order.order_price, true, Ghost(ov))
            };
            if is_bid {
                proof {
                    crate::book::lemma_first_match_ix(m@.asks, ov);
                }
                if j == m.ask_orders.len() {
                    return true;
                }
                counter = m.ask_orders[j].clone();
                proof {
                    assert(counter@ == market_of(st1, namev).asks[j as int]);
                }
            } else {
                proof {
                    crate::book::lemma_first_match_ix(m@.bids, ov);
                }
                if j == m.bid_orders.len() {
                    return true;
                }
                counter = m.bid_orders[j].clone();
                proof {
                    assert(counter@ == market_of(st1, namev).bids[j as int]);
                }
            }
        }
        let mq = if order.order_quantity <= counter.order_quantity {
            order.order_quantity
        } else {
            counter.order_quantity
        };
        let mp = counter.order_price;
        let ghost pr = spec_process(ov, market_of(st1, namev));
        let ghost mv = pr.1->Some_0;
        proof {
            assert(pr.1 is Some);
            assert(mv.quantity == mq && mv.price == mp);
            assert(mv.bid_actor == if is_bid {
                ov.actor
            } else {
                counter@.actor
            });
            assert(mv.ask_actor == if is_bid {
                counter@.actor
            } else {
                ov.actor
            });
        }
        let bid_actor_ref: &String = if is_bid {
            &order.order_actor
        } else {
            &counter.order_actor
        };
        let ask_actor_ref: &String = if is_bid {
            &counter.order_actor
        } else {
            &order.order_actor
        };
        let ra_ref: &String = if is_bid {
            &base
        } else {
            market_name
        };
        let ghost st2 = set_market(st1, namev, pr.0);
        proof {
            assert(st2.balances == st1.balances);
            assert(forall|x: Seq<char>, a: Seq<char>|
                balance_of(st2, x, a) == balance_of(st1, x, a));
        }
        let amt = match mq.checked_mul(mp as u128) {
            None => {
                return false;
            },
            Some(v) => v,
        };
        let b2: u128 = if ask_actor_ref.eq(&self.identity) && base.eq(ra_ref) {
            bal - reserve
        } else {
            self.state.balance(ask_actor_ref, &base)
        };
        proof {
            assert(b2 == balance_of(st2, mv.ask_actor, st0.base));
        }
        let sum2 = match b2.checked_add(amt) {
            None => {
                return false;
            },
            Some(v) => v,
        };
        let ghost st3 = set_balance(st2, mv.ask_actor, st0.base, sum2);
        proof {
            lemma_set_balance(st2, mv.ask_actor, st0.base, sum2);
        }
        let b3: u128 = if bid_actor_ref.eq(ask_actor_ref) && market_name.eq(&base) {
            sum2
        } else if bid_actor_ref.eq(&self.identity) && market_name.eq(ra_ref) {
            bal - reserve
        } else {
            self.state.balance(bid_actor_ref, market_name)
        };
        proof {
            assert(b3 == balance_of(st3, mv.bid_actor, namev));
        }
        let sum3 = match b3.checked_add(mq) {
            None => {
                return false;
            },
            Some(v) => v,
        };
        if is_bid && order.order_price > mp {
            let ghost st4 = set_balance(st3, mv.bid_actor, namev, sum3);
            proof {
                lemma_set_balance(st3, mv.bid_actor, namev, sum3);
            }
            let refund = match mq.checked_mul((order.order_price - mp) as u128) {
                None => {
                    return false;
                },
                Some(v) => v,
            };
            let b4: u128 = if market_name.eq(&base) {
                sum3
            } else if bid_actor_ref.eq(ask_actor_ref) {
                sum2
            } else if bid_actor_ref.eq(&self.identity) && base.eq(ra_ref) {
                bal - reserve
            } else {
                self.state.balance(bid_actor_ref, &base)
            };
            proof {
                assert(b4 == balance_of(st4, mv.bid_actor, st0.base));
            }
            b4.checked_add(refund).is_some()
        } else {
            true
        }
    }

    /// Deposits a transferred amount into the caller's balance for the
    /// token.
    ///
    /// The transfer must name this contract as its recipient, and only the
    /// plain transfer variant is accepted; both checks fail before any
    /// mutation. Once they pass the deposit always succeeds.
    pub fn deposit_asset(&mut self, erc20_action: TokenAction, erc20_name: String) -> (r: Result<
        String,
        String,
    >)
        requires
            state_wf(old(self).state@),
            (erc20_action matches TokenAction::Transfer { recipient, amount } && recipient@ == old(
                self,
            ).contract_name@) ==> balance_of(
                old(self).state@,
                old(self).identity@,
                erc20_name@,
            ) + (erc20_action->Transfer_amount) <= u128::MAX,
        ensures
            final(self).identity@ == old(self).identity@,
            final(self).contract_name@ == old(self).contract_name@,
            match erc20_action {
                TokenAction::Transfer { recipient, amount } => {
                    if recipient@ == old(self).contract_name@ {
                        &&& r matches Ok(m) && m@ == deposit_success_msg(
                            old(self).identity@,
                            erc20_name@,
                        )
                        &&& final(self).state@ == spec_deposit(
                            old(self).state@,
                            old(self).identity@,
                            erc20_name@,
                            amount,
                        )
                        &&& state_wf(final(self).state@)
                    } else {
                        &&& r matches Err(m) && m@ == recipient_mismatch_msg(
                            old(self).contract_name@,
                            recipient@,
                        )
                        &&& final(self).state == old(self).state
                    }
                },
                _ => {
                    &&& r matches Err(m) && m@ == unsupported_action_msg()
                    &&& final(self).state == old(self).state
                },
            },
    {
        match erc20_action {
            TokenAction::Transfer { recipient, amount } => {
                if !recipient.eq(&self.contract_name) {
                    return Err(
                        concat_pair(
                            "Transfer recipient should be ",
                            &self.contract_name,
                            " but was ",
                            &recipient,
                        ),
                    );
                }
                let id = self.identity.clone();
                let msg = concat_pair("Deposit success for ", &id, " - ", &erc20_name);
                self.state.credit(&id, &erc20_name, amount);
                Ok(msg)
            },
            _ => Err(String::from_str("Unsupported token action")),
        }
    }

    /// Inserts one order into the named market: locks the reserve (failing
    /// with an insufficient-balance error before any mutation when the
    /// caller's balance cannot cover it), runs one matching step, and settles
    /// at most one trade.
    pub fn insert_order(&mut self, order: Order, market_name: String) -> (r: Result<
        String,
        String,
    >)
        requires
            state_wf(old(self).state@),
            order@.quantity > 0,
            insert_order_fits(old(self).state@, old(self).identity@, order@, market_name@),
        ensures
            final(self).identity@ == old(self).identity@,
            final(self).contract_name@ == old(self).contract_name@,
            ({
                let (st2, ok) = spec_insert_order(
                    old(self).state@,
                    old(self).identity@,
                    order@,
                    market_name@,
                );
                &&& final(self).state@ == st2
                &&& state_wf(st2)
                &&& (if ok {
                    r matches Ok(m) && m@ == insert_success_msg(old(self).identity@, market_name@)
                } else {
                    r matches Err(m) && m@ == insufficient_balance_msg(
                        old(self).identity@,
                        market_name@,
                    )
                })
            }),
    {
        let ghost st0 = self.state@;
        let ghost idv = self.identity@;
        let ghost ov = order@;
        let ghost namev = market_name@;
        let id = self.identity.clone();
        let is_bid = match order.order_type {
            OrderType::Bid => true,
            OrderType::Ask => false,
        };
        let base = self.state.base_asset.clone();
        let reserve: u128 = if is_bid {
            (order.order_price as u128) * order.order_quantity
        } else {
            order.order_quantity
        };
        let bal = if is_bid {
            self.state.balance(&id, &base)
        } else {
            self.state.balance(&id, &market_name)
        };
        if bal < reserve {
            return Err(concat_pair("Insufficient balance for ", &id, " - ", &market_name));
        }
        if is_bid {
            self.state.debit(&id, &base, reserve);
        } else {
            self.state.debit(&id, &market_name, reserve);
        }
        let ghost st1 = self.state@;
        proof {
            assert(st1 == set_balance(
                st0,
                idv,
                reserve_asset_of(st0, ov, namev),
                (balance_of(st0, idv, reserve_asset_of(st0, ov, namev)) as int - reserve_of(
                    ov,
                )) as u128,
            ));
        }
        // Find or create the market, take it out, run the matching step, and
        // put the result back in the market's place.
        let mi = find_key(&self.state.markets, &market_name);
        proof {
            lemma_key_ix(st1.markets, namev);
        }
        let mut entry: (String, Market);
        let created = mi == self.state.markets.len();
        if created {
            entry = (market_name.clone(), Market { ask_orders: Vec::new(), bid_orders: Vec::new() });
            proof {
                assert(entry.1@ =~~= market_of(st1, namev));
            }
        } else {
            entry = self.state.markets.remove(mi);
            proof {
                assert(entry.1@ == market_of(st1, namev));
            }
        }
        proof {
            assert(market_wf(market_of(st1, namev)));
        }
        let mut order2 = order.clone();
        let res = process_order(&mut order2, &mut entry.1);
        let ghost pr = spec_process(ov, market_of(st1, namev));
        proof {
            lemma_process_wf(ov, market_of(st1, namev));
        }
        if created {
            self.state.markets.push(entry);
        } else {
            self.state.markets.insert(mi, entry);
        }
        proof {
            assert(self.state@.markets =~~= assoc_set(st1.markets, namev, pr.0));
            assert(self.state@ =~~= set_market(st1, namev, pr.0));
            lemma_set_market(st1, namev, pr.0);
        }
        let ghost st2 = set_market(st1, namev, pr.0);
        match res {
            Some(tuple) => {
                let (bid_actor, ask_actor, mq, mp) = tuple;
                let amount: u128 = mq * (mp as u128);
                self.state.credit(&ask_actor, &base, amount);
                self.state.credit(&bid_actor, &market_name, mq);
                if is_bid && order.order_price > mp {
                    let refund: u128 = mq * ((order.order_price - mp) as u128);
                    self.state.credit(&bid_actor, &base, refund);
                }
            },
            None => {},
        }
        Ok(concat_pair("Order inserted successfully for ", &id, " - ", &market_name))
    }
}

} // verus!
