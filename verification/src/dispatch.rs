//! The action dispatcher: decodes nothing itself — it takes a decoded prior
//! state and a decoded action, invokes the matching contract operation, and
//! hands back the new state with the operation's result.
use vstd::prelude::*;

use crate::book::{Order, OrderType, OrderV};
use crate::contract::{
    deposit_success_msg, insert_order_fits, insert_success_msg, insufficient_balance_msg,
    recipient_mismatch_msg, spec_deposit, spec_insert_order, unsupported_action_msg,
    OrderBookContract, TokenAction,
};
use crate::state::{balance_of, state_wf, OrderBookState};

verus! {

/// An action submitted to the order book: fund a balance from a token
/// transfer, or insert one order into a market.
#[derive(Debug)]
pub enum OrderBookAction {
    DepositAsset {},
    InsertOrder {
        order_asset: String,
        order_type: OrderType,
        order_price: u64,
        order_quantity: u128,
    },
}

/// The machine-width bounds one dispatched action needs.
pub open spec fn execute_fits(
    st: crate::state::StateV,
    id: Seq<char>,
    cn: Seq<char>,
    action: OrderBookAction,
    transfer: Option<(TokenAction, String)>,
) -> bool {
    match action {
        OrderBookAction::DepositAsset {  } => match transfer {
            None => true,
            Some(t) => ((t.0 matches TokenAction::Transfer { recipient, amount } && recipient@
                == cn) ==> balance_of(st, id, t.1@) + (t.0->Transfer_amount) <= u128::MAX),
        },
        OrderBookAction::InsertOrder { order_asset, order_type, order_price, order_quantity } => {
            insert_order_fits(
                st,
                id,
                OrderV { actor: id, ty: order_type, price: order_price, quantity: order_quantity },
                order_asset@,
            )
        },
    }
}

/// Applies one action to a prior state: a deposit consumes the accompanying
/// transfer assertion, an order insertion runs the matching step. Returns
/// the new state and the operation's message or error; a rejected action
/// leaves the state exactly as it was.
pub fn execute(
    identity: String,
    contract_name: String,
    state: OrderBookState,
    action: OrderBookAction,
    transfer: Option<(TokenAction, String)>,
) -> (r: (OrderBookState, Result<String, String>))
    requires
        state_wf(state@),
        action matches OrderBookAction::DepositAsset {  } ==> transfer is Some,
        (action matches OrderBookAction::InsertOrder { order_quantity, .. } ==> order_quantity
            > 0),
        execute_fits(state@, identity@, contract_name@, action, transfer),
    ensures
        match action {
            OrderBookAction::DepositAsset {  } => match transfer {
                None => r.1 is Err && r.0@ == state@,
                Some(t) => match t.0 {
                    TokenAction::Transfer { recipient, amount } => {
                        if recipient@ == contract_name@ {
                            &&& r.0@ == spec_deposit(state@, identity@, t.1@, amount)
                            &&& r.1 matches Ok(m) && m@ == deposit_success_msg(identity@, t.1@)
                        } else {
                            &&& r.0@ == state@
                            &&& r.1 matches Err(m) && m@ == recipient_mismatch_msg(
                                contract_name@,
                                recipient@,
                            )
                        }
                    },
                    _ => r.0@ == state@ && (r.1 matches Err(m) && m@ == unsupported_action_msg()),
                },
            },
            OrderBookAction::InsertOrder {
                order_asset,
                order_type,
                order_price,
                order_quantity,
            } => ({
                let ov = OrderV {
                    actor: identity@,
                    ty: order_type,
                    price: order_price,
                    quantity: order_quantity,
                };
                let (st2, ok) = spec_insert_order(state@, identity@, ov, order_asset@);
                &&& r.0@ == st2
                &&& (if ok {
                    r.1 matches Ok(m) && m@ == insert_success_msg(identity@, order_asset@)
                } else {
                    r.1 matches Err(m) && m@ == insufficient_balance_msg(identity@, order_asset@)
                })
            }),
        },
{
    let mut contract = OrderBookContract::new(identity, contract_name, state);
    let res = match action {
        OrderBookAction::DepositAsset {  } => match transfer {
            Some(t) => {
                let (token_action, token_name) = t;
                contract.deposit_asset(token_action, token_name)
            },
            None => Err(String::from_str("Missing transfer blob")),
        },
        OrderBookAction::InsertOrder {
            order_asset,
            order_type,
            order_price,
            order_quantity,
        } => {
            let order = Order {
                order_actor: contract.identity.clone(),
                order_type,
                order_price,
                order_quantity,
            };
            contract.insert_order(order, order_asset)
        },
    };
    (contract.state, res)
}

} // verus!
